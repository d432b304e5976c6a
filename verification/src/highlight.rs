//! Syntax highlighter for Fink code snippets.
//!
//! Two passes produce annotations over byte ranges of the source:
//!   1. the lexer pass classifies every token (priority 5);
//!   2. when the snippet parsed, the syntax-tree pass marks call sites,
//!      property names, record keys, block names, tags and brackets
//!      (priority 10, so it wins over the lexer where both start together).
//! The annotations are then ordered and resolved into non-overlapping spans,
//! which are rendered to HTML (`highlight`) or handed out as tuples (`annotate`).
//!
//! The tokens and the syntax tree are plain values of this module: the Fink
//! lexer and parser that produce them live outside this library.

use vstd::prelude::*;
use vstd::utf8::encode_utf8;

use vstd::string::*;
use vstd::utf8::{is_char_boundary, is_char_boundary_start_end_of_seq, valid_utf8};

use crate::text::{
    byte_slice, escape, lemma_ascii_boundary, lemma_boundary_in, lemma_char_boundary_next, lemma_escape_concat,
    lemma_escape_no_lt, lemma_piece_concat, lemma_visible_tag, lemma_visible_text, piece, push_escaped, str_eq,
    utf8_width, visible,
};

verus! {

// ---- classes ---------------------------------------------------------------

/// A highlight class; its CSS name is given by `name`.
#[derive(Clone, Copy, Debug, PartialEq, Eq, Structural)]
pub enum Class {
    Kw,
    KwB,
    Ty,
    Fn,
    Prop,
    RecKey,
    Blk,
    Tag,
    Ident,
    Op,
    OpAsgn,
    OpPipe,
    OpRng,
    OpDot,
    Br,
    Br1,
    Br2,
    Br3,
    Str,
    StrE,
    Num,
    NumB,
    Cmt,
    Ph,
    Wc,
}

impl Class {
    /// The CSS class name of a highlight class.
    pub open spec fn spec_name(self) -> Seq<char> {
        match self {
            Class::Kw => "kw"@,
            Class::KwB => "kw-b"@,
            Class::Ty => "ty"@,
            Class::Fn => "fn"@,
            Class::Prop => "prop"@,
            Class::RecKey => "rec-key"@,
            Class::Blk => "blk"@,
            Class::Tag => "tag"@,
            Class::Ident => "ident"@,
            Class::Op => "op"@,
            Class::OpAsgn => "op-asgn"@,
            Class::OpPipe => "op-pipe"@,
            Class::OpRng => "op-rng"@,
            Class::OpDot => "op-dot"@,
            Class::Br => "br"@,
            Class::Br1 => "br-1"@,
            Class::Br2 => "br-2"@,
            Class::Br3 => "br-3"@,
            Class::Str => "str"@,
            Class::StrE => "str-e"@,
            Class::Num => "num"@,
            Class::NumB => "num-b"@,
            Class::Cmt => "cmt"@,
            Class::Ph => "ph"@,
            Class::Wc => "wc"@,
        }
    }

    /// The CSS class name of a highlight class.
    pub fn name(&self) -> (s: &'static str)
        ensures
            s@ == self.spec_name(),
    {
        match self {
            Class::Kw => "kw",
            Class::KwB => "kw-b",
            Class::Ty => "ty",
            Class::Fn => "fn",
            Class::Prop => "prop",
            Class::RecKey => "rec-key",
            Class::Blk => "blk",
            Class::Tag => "tag",
            Class::Ident => "ident",
            Class::Op => "op",
            Class::OpAsgn => "op-asgn",
            Class::OpPipe => "op-pipe",
            Class::OpRng => "op-rng",
            Class::OpDot => "op-dot",
            Class::Br => "br",
            Class::Br1 => "br-1",
            Class::Br2 => "br-2",
            Class::Br3 => "br-3",
            Class::Str => "str",
            Class::StrE => "str-e",
            Class::Num => "num",
            Class::NumB => "num-b",
            Class::Cmt => "cmt",
            Class::Ph => "ph",
            Class::Wc => "wc",
        }
    }
}

// ---- annotations -------------------------------------------------------------

/// A class proposed for the byte range `start..end`, with a priority that
/// decides between annotations starting at the same byte.
#[derive(Clone, Copy, Debug)]
pub struct Ann {
    pub start: usize,
    pub end: usize,
    pub class: Class,
    pub priority: u8,
}

/// The annotation, as a sequence of zero or one element: empty ranges are dropped.
pub open spec fn opt_ann(start: int, end: int, class: Class, priority: u8) -> Seq<Ann> {
    if start < end && 0 <= start && end <= usize::MAX {
        seq![Ann { start: start as usize, end: end as usize, class, priority }]
    } else {
        seq![]
    }
}

/// Every annotation covers a non-empty range.
pub open spec fn anns_wf(anns: Seq<Ann>) -> bool {
    forall|i: int| 0 <= i < anns.len() ==> #[trigger] anns[i].start < anns[i].end
}

/// Order of annotations: by start, then higher priority first.
pub open spec fn ann_le(a: Ann, b: Ann) -> bool {
    a.start < b.start || (a.start == b.start && a.priority >= b.priority)
}

/// Position at which `x` is inserted into `s`: after the longest suffix of
/// elements that come strictly after `x`.
pub open spec fn insert_pos(s: Seq<Ann>, x: Ann) -> int
    decreases s.len(),
{
    if s.len() == 0 {
        0
    } else if ann_le(s.last(), x) {
        s.len() as int
    } else {
        insert_pos(s.drop_last(), x)
    }
}

/// The annotations in the order in which they are resolved: sorted by
/// `ann_le`, annotations of equal start and priority kept in their order.
pub open spec fn sorted_anns(s: Seq<Ann>) -> Seq<Ann>
    decreases s.len(),
{
    if s.len() == 0 {
        s
    } else {
        let o = sorted_anns(s.drop_last());
        o.insert(insert_pos(o, s.last()), s.last())
    }
}

proof fn lemma_insert_wf(o: Seq<Ann>, p: int, x: Ann)
    requires
        anns_wf(o),
        0 <= p <= o.len(),
        x.start < x.end,
    ensures
        anns_wf(o.insert(p, x)),
{
    assert forall|i: int| 0 <= i < o.insert(p, x).len() implies #[trigger] o.insert(p, x)[i].start < o.insert(
        p,
        x,
    )[i].end by {
        if i < p {
            assert(o.insert(p, x)[i] == o[i]);
        } else if i > p {
            assert(o.insert(p, x)[i] == o[i - 1]);
        }
    }
}

proof fn lemma_insert_pos_bounds(s: Seq<Ann>, x: Ann)
    ensures
        0 <= insert_pos(s, x) <= s.len(),
    decreases s.len(),
{
    if s.len() > 0 && !ann_le(s.last(), x) {
        lemma_insert_pos_bounds(s.drop_last(), x);
    }
}

proof fn lemma_sorted_anns_wf(s: Seq<Ann>)
    ensures
        sorted_anns(s).len() == s.len(),
        anns_wf(s) ==> anns_wf(sorted_anns(s)),
    decreases s.len(),
{
    if s.len() > 0 {
        lemma_sorted_anns_wf(s.drop_last());
        let o = sorted_anns(s.drop_last());
        lemma_insert_pos_bounds(o, s.last());
        if anns_wf(s) {
            assert(anns_wf(s.drop_last())) by {
                assert forall|i: int| 0 <= i < s.drop_last().len() implies #[trigger] s.drop_last()[i].start
                    < s.drop_last()[i].end by {
                    assert(s.drop_last()[i] == s[i]);
                }
            }
            assert(s.last().start < s.last().end) by {
                assert(s.last() == s[s.len() - 1]);
            }
            lemma_insert_wf(o, insert_pos(o, s.last()), s.last());
        }
    }
}

/// The annotations are in resolution order: each one comes before, or
/// together with, every later one.
pub open spec fn anns_sorted(s: Seq<Ann>) -> bool {
    forall|i: int, j: int| 0 <= i < j < s.len() ==> ann_le(#[trigger] s[i], #[trigger] s[j])
}

/// The annotations with the given start and priority, in their order.
pub open spec fn with_key(s: Seq<Ann>, start: usize, priority: u8) -> Seq<Ann> {
    s.filter(|a: Ann| a.start == start && a.priority == priority)
}

proof fn lemma_insert_pos(s: Seq<Ann>, x: Ann)
    ensures
        0 <= insert_pos(s, x) <= s.len(),
        forall|i: int| insert_pos(s, x) <= i < s.len() ==> !ann_le(#[trigger] s[i], x),
        insert_pos(s, x) > 0 ==> ann_le(s[insert_pos(s, x) - 1], x),
    decreases s.len(),
{
    if s.len() > 0 && !ann_le(s.last(), x) {
        lemma_insert_pos(s.drop_last(), x);
        assert forall|i: int| insert_pos(s, x) <= i < s.len() implies !ann_le(#[trigger] s[i], x) by {
            if i < s.len() - 1 {
                assert(s[i] == s.drop_last()[i]);
            }
        }
        if insert_pos(s, x) > 0 {
            assert(s[insert_pos(s, x) - 1] == s.drop_last()[insert_pos(s, x) - 1]);
        }
    }
}

proof fn lemma_filter_none(s: Seq<Ann>, pred: spec_fn(Ann) -> bool)
    requires
        forall|i: int| 0 <= i < s.len() ==> !pred(#[trigger] s[i]),
    ensures
        s.filter(pred) == Seq::<Ann>::empty(),
    decreases s.len(),
{
    reveal(Seq::filter);
    if s.len() > 0 {
        assert forall|i: int| 0 <= i < s.drop_last().len() implies !pred(#[trigger] s.drop_last()[i]) by {
            assert(s.drop_last()[i] == s[i]);
        }
        lemma_filter_none(s.drop_last(), pred);
        assert(!pred(s[s.len() - 1]));
    }
}

/// Sorting puts the annotations in resolution order, keeps every one of
/// them, and keeps annotations of equal start and priority in the order in
/// which they were added.
pub proof fn lemma_sorted_anns(s: Seq<Ann>)
    ensures
        anns_sorted(sorted_anns(s)),
        sorted_anns(s).to_multiset() == s.to_multiset(),
        forall|start: usize, priority: u8| #[trigger] with_key(sorted_anns(s), start, priority) == with_key(s, start, priority),
    decreases s.len(),
{
    broadcast use vstd::seq_lib::to_multiset_insert, vstd::seq_lib::to_multiset_build;

    if s.len() == 0 {
    } else {
        let q = s.drop_last();
        let x = s.last();
        lemma_sorted_anns(q);
        let o = sorted_anns(q);
        let p = insert_pos(o, x);
        lemma_insert_pos(o, x);
        let r = o.insert(p, x);
        assert(sorted_anns(s) == r);
        assert forall|i: int, j: int| 0 <= i < j < r.len() implies ann_le(#[trigger] r[i], #[trigger] r[j]) by {
            if j < p {
                assert(r[i] == o[i] && r[j] == o[j]);
            } else if j == p {
                assert(r[j] == x);
                assert(r[i] == o[i]);
                if i < p - 1 {
                    assert(ann_le(o[i], o[p - 1]));
                }
            } else if i < p {
                assert(r[i] == o[i] && r[j] == o[j - 1]);
                assert(ann_le(o[i], o[j - 1]));
            } else if i == p {
                assert(r[i] == x && r[j] == o[j - 1]);
                assert(!ann_le(o[j - 1], x));
            } else {
                assert(r[i] == o[i - 1] && r[j] == o[j - 1]);
            }
        }
        assert(q.push(x) =~= s);
        assert forall|start: usize, priority: u8| #[trigger] with_key(r, start, priority) == with_key(s, start, priority) by {
            let pred = |a: Ann| a.start == start && a.priority == priority;
            assert(r =~= o.take(p) + seq![x] + o.skip(p));
            assert(o =~= o.take(p) + o.skip(p));
            Seq::filter_distributes_over_add(o.take(p) + seq![x], o.skip(p), pred);
            Seq::filter_distributes_over_add(o.take(p), seq![x], pred);
            Seq::filter_distributes_over_add(o.take(p), o.skip(p), pred);
            reveal_with_fuel(Seq::filter, 2);
            assert(seq![x].drop_last() =~= Seq::<Ann>::empty());
            assert(with_key(o, start, priority) == with_key(q, start, priority));
            if pred(x) {
                assert forall|i: int| 0 <= i < o.skip(p).len() implies !pred(#[trigger] o.skip(p)[i]) by {
                    assert(o.skip(p)[i] == o[p + i]);
                    assert(!ann_le(o[p + i], x));
                }
                lemma_filter_none(o.skip(p), pred);
                assert(o.skip(p).filter(pred) =~= Seq::<Ann>::empty());
                assert(with_key(r, start, priority) =~= with_key(o, start, priority).push(x));
            } else {
                assert(seq![x].filter(pred) =~= Seq::<Ann>::empty());
                assert(r.filter(pred) =~= o.filter(pred));
            }
        }
    }
}

/// The collection of annotations that the passes fill.
pub struct Annotations {
    pub anns: Vec<Ann>,
}

impl Annotations {
    pub fn new() -> (r: Self)
        ensures
            r.anns@ == Seq::<Ann>::empty(),
    {
        Annotations { anns: Vec::new() }
    }

    /// Records an annotation unless its range is empty.
    pub fn add(&mut self, start: usize, end: usize, class: Class, priority: u8)
        ensures
            final(self).anns@ == old(self).anns@ + opt_ann(start as int, end as int, class, priority),
            anns_wf(old(self).anns@) ==> anns_wf(final(self).anns@),
    {
        if start < end {
            self.anns.push(Ann { start, end, class, priority });
        }
        assert(final(self).anns@ =~= old(self).anns@ + opt_ann(start as int, end as int, class, priority));
    }

    /// Orders the annotations by start, higher priority first, keeping the
    /// order of annotations with equal start and priority.
    pub fn sort(&mut self)
        ensures
            final(self).anns@ == sorted_anns(old(self).anns@),
            anns_wf(old(self).anns@) ==> anns_wf(final(self).anns@),
            anns_sorted(final(self).anns@),
            final(self).anns@.to_multiset() == old(self).anns@.to_multiset(),
            forall|start: usize, priority: u8|
                #[trigger] with_key(final(self).anns@, start, priority) == with_key(old(self).anns@, start, priority),
    {
        proof {
            lemma_sorted_anns(self.anns@);
        }
        let mut out: Vec<Ann> = Vec::new();
        let n = self.anns.len();
        let mut i: usize = 0;
        while i < n
            invariant
                n == self.anns.len(),
                self.anns@ == old(self).anns@,
                i <= n,
                out@ == sorted_anns(self.anns@.take(i as int)),
            decreases n - i,
        {
            let x = self.anns[i];
            let ghost s = self.anns@.take(i as int);
            let mut j = out.len();
            assert(out@.take(j as int) =~= out@);
            while j > 0 && !(out[j - 1].start < x.start || (out[j - 1].start == x.start
                && out[j - 1].priority >= x.priority))
                invariant
                    j <= out.len(),
                    insert_pos(out@, x) == insert_pos(out@.take(j as int), x),
                decreases j,
            {
                assert(out@.take(j as int).drop_last() =~= out@.take(j - 1));
                j -= 1;
            }
            assert(insert_pos(out@.take(j as int), x) == j);
            out.insert(j, x);
            assert(self.anns@.take(i + 1).drop_last() =~= s);
            i += 1;
        }
        assert(self.anns@.take(n as int) =~= self.anns@);
        proof {
            lemma_sorted_anns_wf(self.anns@);
        }
        self.anns = out;
    }
}

// ---- lexer pass --------------------------------------------------------------

/// Kinds of Fink lexer tokens.
#[derive(Clone, Copy, Debug, PartialEq, Eq, Structural)]
pub enum TokenKind {
    Ident,
    Int,
    Float,
    Decimal,
    Sep,
    Comma,
    Semicolon,
    Colon,
    Partial,
    BracketOpen,
    BracketClose,
    StrStart,
    StrEnd,
    StrText,
    StrExprStart,
    StrExprEnd,
    Comment,
    CommentStart,
    CommentText,
    CommentEnd,
    BlockStart,
    BlockCont,
    BlockEnd,
    Error,
    Eof,
}

/// A lexer token: its kind, its byte range in the snippet and its text.
#[derive(Debug)]
pub struct Token {
    pub kind: TokenKind,
    pub start: usize,
    pub end: usize,
    pub text: String,
}

/// The UTF-8 bytes of a token's text.
pub open spec fn token_bytes(t: Token) -> Seq<u8> {
    encode_utf8(t.text@)
}

/// Byte positions computed from a token fit in a `usize`.
pub open spec fn token_fits(t: Token) -> bool {
    t.start + token_bytes(t).len() < usize::MAX
}

pub open spec fn tokens_fit(ts: Seq<Token>) -> bool {
    forall|i: int| 0 <= i < ts.len() ==> #[trigger] token_fits(ts[i])
}

/// Control and structural keywords.
pub open spec fn is_keyword(t: Seq<char>) -> bool {
    ||| t == "fn"@
    ||| t == "match"@
    ||| t == "import"@
    ||| t == "type"@
    ||| t == "variant"@
    ||| t == "try"@
    ||| t == "else"@
    ||| t == "dict"@
    ||| t == "set"@
    ||| t == "ordered_set"@
    ||| t == "await"@
    ||| t == "yield"@
}

/// Operators written as words.
pub open spec fn is_word_op(t: Seq<char>) -> bool {
    ||| t == "not"@
    ||| t == "and"@
    ||| t == "or"@
    ||| t == "xor"@
    ||| t == "in"@
}

/// Boolean literals.
pub open spec fn is_builtin_literal(t: Seq<char>) -> bool {
    t == "true"@ || t == "false"@
}

/// Built-in primitive type names.
pub open spec fn is_builtin_type(t: Seq<char>) -> bool {
    ||| t == "u8"@
    ||| t == "u16"@
    ||| t == "u32"@
    ||| t == "u64"@
    ||| t == "i8"@
    ||| t == "i16"@
    ||| t == "i32"@
    ||| t == "i64"@
    ||| t == "f16"@
    ||| t == "f32"@
    ||| t == "f64"@
    ||| t == "num"@
    ||| t == "int"@
    ||| t == "uint"@
    ||| t == "float"@
    ||| t == "dec"@
    ||| t == "str"@
}

/// Class of an identifier token.
pub open spec fn ident_class(t: Seq<char>) -> Class {
    if is_keyword(t) {
        Class::Kw
    } else if is_builtin_literal(t) {
        Class::KwB
    } else if is_builtin_type(t) {
        Class::Ty
    } else if is_word_op(t) {
        Class::Op
    } else if t == "_"@ {
        Class::Wc
    } else {
        Class::Ident
    }
}

/// Class of a separator (operator) token.
pub open spec fn sep_class(t: Seq<char>) -> Class {
    if t == "|="@ || t == "|"@ {
        Class::OpPipe
    } else if t == "="@ {
        Class::OpAsgn
    } else if t == "..."@ || t == ".."@ {
        Class::OpRng
    } else if t == "."@ {
        Class::OpDot
    } else {
        Class::Op
    }
}

/// The characters of the words the lexer pass classes identifiers by.
proof fn lemma_ident_words()
    ensures
        "fn"@.len() == 2 && "fn"@[0] == 'f' && "fn"@[1] == 'n',
        "match"@.len() == 5 && "match"@[0] == 'm' && "match"@[1] == 'a' && "match"@[2] == 't' && "match"@[3] == 'c' && "match"@[4] == 'h',
        "import"@.len() == 6 && "import"@[0] == 'i' && "import"@[1] == 'm' && "import"@[2] == 'p' && "import"@[3] == 'o' && "import"@[4] == 'r' && "import"@[5] == 't',
        "type"@.len() == 4 && "type"@[0] == 't' && "type"@[1] == 'y' && "type"@[2] == 'p' && "type"@[3] == 'e',
        "variant"@.len() == 7 && "variant"@[0] == 'v' && "variant"@[1] == 'a' && "variant"@[2] == 'r' && "variant"@[3] == 'i' && "variant"@[4] == 'a' && "variant"@[5] == 'n' && "variant"@[6] == 't',
        "try"@.len() == 3 && "try"@[0] == 't' && "try"@[1] == 'r' && "try"@[2] == 'y',
        "else"@.len() == 4 && "else"@[0] == 'e' && "else"@[1] == 'l' && "else"@[2] == 's' && "else"@[3] == 'e',
        "dict"@.len() == 4 && "dict"@[0] == 'd' && "dict"@[1] == 'i' && "dict"@[2] == 'c' && "dict"@[3] == 't',
        "set"@.len() == 3 && "set"@[0] == 's' && "set"@[1] == 'e' && "set"@[2] == 't',
        "ordered_set"@.len() == 11 && "ordered_set"@[0] == 'o' && "ordered_set"@[1] == 'r' && "ordered_set"@[2] == 'd' && "ordered_set"@[3] == 'e' && "ordered_set"@[4] == 'r' && "ordered_set"@[5] == 'e' && "ordered_set"@[6] == 'd' && "ordered_set"@[7] == '_' && "ordered_set"@[8] == 's' && "ordered_set"@[9] == 'e' && "ordered_set"@[10] == 't',
        "await"@.len() == 5 && "await"@[0] == 'a' && "await"@[1] == 'w' && "await"@[2] == 'a' && "await"@[3] == 'i' && "await"@[4] == 't',
        "yield"@.len() == 5 && "yield"@[0] == 'y' && "yield"@[1] == 'i' && "yield"@[2] == 'e' && "yield"@[3] == 'l' && "yield"@[4] == 'd',
        "true"@.len() == 4 && "true"@[0] == 't' && "true"@[1] == 'r' && "true"@[2] == 'u' && "true"@[3] == 'e',
        "false"@.len() == 5 && "false"@[0] == 'f' && "false"@[1] == 'a' && "false"@[2] == 'l' && "false"@[3] == 's' && "false"@[4] == 'e',
        "u8"@.len() == 2 && "u8"@[0] == 'u' && "u8"@[1] == '8',
        "u16"@.len() == 3 && "u16"@[0] == 'u' && "u16"@[1] == '1' && "u16"@[2] == '6',
        "u32"@.len() == 3 && "u32"@[0] == 'u' && "u32"@[1] == '3' && "u32"@[2] == '2',
        "u64"@.len() == 3 && "u64"@[0] == 'u' && "u64"@[1] == '6' && "u64"@[2] == '4',
        "i8"@.len() == 2 && "i8"@[0] == 'i' && "i8"@[1] == '8',
        "i16"@.len() == 3 && "i16"@[0] == 'i' && "i16"@[1] == '1' && "i16"@[2] == '6',
        "i32"@.len() == 3 && "i32"@[0] == 'i' && "i32"@[1] == '3' && "i32"@[2] == '2',
        "i64"@.len() == 3 && "i64"@[0] == 'i' && "i64"@[1] == '6' && "i64"@[2] == '4',
        "f16"@.len() == 3 && "f16"@[0] == 'f' && "f16"@[1] == '1' && "f16"@[2] == '6',
        "f32"@.len() == 3 && "f32"@[0] == 'f' && "f32"@[1] == '3' && "f32"@[2] == '2',
        "f64"@.len() == 3 && "f64"@[0] == 'f' && "f64"@[1] == '6' && "f64"@[2] == '4',
        "num"@.len() == 3 && "num"@[0] == 'n' && "num"@[1] == 'u' && "num"@[2] == 'm',
        "int"@.len() == 3 && "int"@[0] == 'i' && "int"@[1] == 'n' && "int"@[2] == 't',
        "uint"@.len() == 4 && "uint"@[0] == 'u' && "uint"@[1] == 'i' && "uint"@[2] == 'n' && "uint"@[3] == 't',
        "float"@.len() == 5 && "float"@[0] == 'f' && "float"@[1] == 'l' && "float"@[2] == 'o' && "float"@[3] == 'a' && "float"@[4] == 't',
        "dec"@.len() == 3 && "dec"@[0] == 'd' && "dec"@[1] == 'e' && "dec"@[2] == 'c',
        "str"@.len() == 3 && "str"@[0] == 's' && "str"@[1] == 't' && "str"@[2] == 'r',
        "not"@.len() == 3 && "not"@[0] == 'n' && "not"@[1] == 'o' && "not"@[2] == 't',
        "and"@.len() == 3 && "and"@[0] == 'a' && "and"@[1] == 'n' && "and"@[2] == 'd',
        "or"@.len() == 2 && "or"@[0] == 'o' && "or"@[1] == 'r',
        "xor"@.len() == 3 && "xor"@[0] == 'x' && "xor"@[1] == 'o' && "xor"@[2] == 'r',
        "in"@.len() == 2 && "in"@[0] == 'i' && "in"@[1] == 'n',
        "_"@.len() == 1 && "_"@[0] == '_',
{
    reveal_strlit("fn");
    reveal_strlit("match");
    reveal_strlit("import");
    reveal_strlit("type");
    reveal_strlit("variant");
    reveal_strlit("try");
    reveal_strlit("else");
    reveal_strlit("dict");
    reveal_strlit("set");
    reveal_strlit("ordered_set");
    reveal_strlit("await");
    reveal_strlit("yield");
    reveal_strlit("true");
    reveal_strlit("false");
    reveal_strlit("u8");
    reveal_strlit("u16");
    reveal_strlit("u32");
    reveal_strlit("u64");
    reveal_strlit("i8");
    reveal_strlit("i16");
    reveal_strlit("i32");
    reveal_strlit("i64");
    reveal_strlit("f16");
    reveal_strlit("f32");
    reveal_strlit("f64");
    reveal_strlit("num");
    reveal_strlit("int");
    reveal_strlit("uint");
    reveal_strlit("float");
    reveal_strlit("dec");
    reveal_strlit("str");
    reveal_strlit("not");
    reveal_strlit("and");
    reveal_strlit("or");
    reveal_strlit("xor");
    reveal_strlit("in");
    reveal_strlit("_");
}

/// The lexer pass classes an identifier token by its text alone: the
/// keywords `fn`, `match`, `import`, `type`, `variant`, `try`, `else`,
/// `dict`, `set`, `ordered_set`, `await` and `yield` are `kw`; `true` and
/// `false` are `kw-b`; the primitive type names are `ty`; the word
/// operators `not`, `and`, `or`, `xor` and `in` are `op`; `_` is `wc`; any
/// other identifier is `ident`. The token gets one annotation over its
/// range, at the lexer's priority.
pub proof fn lemma_ident_classes(t: Token)
    requires
        t.kind == TokenKind::Ident,
    ensures
        ({
            let w = t.text@;
            let s = t.start as int;
            let e = t.end as int;
            let kw = w == "fn"@ || w == "match"@ || w == "import"@ || w == "type"@ || w == "variant"@ || w
                == "try"@ || w == "else"@ || w == "dict"@ || w == "set"@ || w == "ordered_set"@ || w == "await"@
                || w == "yield"@;
            let lit = w == "true"@ || w == "false"@;
            let ty = w == "u8"@ || w == "u16"@ || w == "u32"@ || w == "u64"@ || w == "i8"@ || w == "i16"@ || w
                == "i32"@ || w == "i64"@ || w == "f16"@ || w == "f32"@ || w == "f64"@ || w == "num"@ || w == "int"@
                || w == "uint"@ || w == "float"@ || w == "dec"@ || w == "str"@;
            let op = w == "not"@ || w == "and"@ || w == "or"@ || w == "xor"@ || w == "in"@;
            let wc = w == "_"@;
            &&& kw ==> token_anns(t) == opt_ann(s, e, Class::Kw, 5)
            &&& lit ==> token_anns(t) == opt_ann(s, e, Class::KwB, 5)
            &&& ty ==> token_anns(t) == opt_ann(s, e, Class::Ty, 5)
            &&& op ==> token_anns(t) == opt_ann(s, e, Class::Op, 5)
            &&& wc ==> token_anns(t) == opt_ann(s, e, Class::Wc, 5)
            &&& !(kw || lit || ty || op || wc) ==> token_anns(t) == opt_ann(s, e, Class::Ident, 5)
        }),
{
    lemma_ident_words();
}

/// The characters of the separators the lexer pass classes apart.
proof fn lemma_sep_words()
    ensures
        "|="@.len() == 2 && "|="@[0] == '|' && "|="@[1] == '=',
        "|"@.len() == 1 && "|"@[0] == '|',
        "="@.len() == 1 && "="@[0] == '=',
        "..."@.len() == 3 && "..."@[0] == '.' && "..."@[1] == '.' && "..."@[2] == '.',
        ".."@.len() == 2 && ".."@[0] == '.' && ".."@[1] == '.',
        "."@.len() == 1 && "."@[0] == '.',
{
    reveal_strlit("|=");
    reveal_strlit("|");
    reveal_strlit("=");
    reveal_strlit("...");
    reveal_strlit("..");
    reveal_strlit(".");
}

/// The lexer pass classes a separator token by its text alone: `|=` and
/// `|` are `op-pipe`, `=` is `op-asgn`, `...` and `..` are `op-rng`, `.` is
/// `op-dot`, any other separator is `op`. The token gets one annotation
/// over its range, at the lexer's priority.
pub proof fn lemma_sep_classes(t: Token)
    requires
        t.kind == TokenKind::Sep,
    ensures
        ({
            let w = t.text@;
            let s = t.start as int;
            let e = t.end as int;
            &&& (w == "|="@ || w == "|"@) ==> token_anns(t) == opt_ann(s, e, Class::OpPipe, 5)
            &&& w == "="@ ==> token_anns(t) == opt_ann(s, e, Class::OpAsgn, 5)
            &&& (w == "..."@ || w == ".."@) ==> token_anns(t) == opt_ann(s, e, Class::OpRng, 5)
            &&& w == "."@ ==> token_anns(t) == opt_ann(s, e, Class::OpDot, 5)
            &&& !(w == "|="@ || w == "|"@ || w == "="@ || w == "..."@ || w == ".."@ || w == "."@) ==> token_anns(t)
                == opt_ann(s, e, Class::Op, 5)
        }),
{
    lemma_sep_words();
}

fn is_one_of(t: &str, words: &[&str]) -> (r: bool)
    ensures
        r == exists|i: int| 0 <= i < words@.len() && t@ == (#[trigger] words@[i])@,
{
    let mut i: usize = 0;
    while i < words.len()
        invariant
            i <= words@.len(),
            forall|k: int| 0 <= k < i ==> t@ != (#[trigger] words@[k])@,
        decreases words@.len() - i,
    {
        if str_eq(t, words[i]) {
            return true;
        }
        i += 1;
    }
    false
}

fn classify_ident(t: &str) -> (c: Class)
    ensures
        c == ident_class(t@),
{
    let keywords = ["fn", "match", "import", "type", "variant", "try", "else", "dict", "set",
        "ordered_set", "await", "yield"];
    let literals = ["true", "false"];
    let types = ["u8", "u16", "u32", "u64", "i8", "i16", "i32", "i64", "f16", "f32", "f64",
        "num", "int", "uint", "float", "dec", "str"];
    let word_ops = ["not", "and", "or", "xor", "in"];
    let kw = is_one_of(t, &keywords);
    proof {
        if is_keyword(t@) {
            if t@ == "fn"@ { assert(t@ == keywords@[0]@); }
            if t@ == "match"@ { assert(t@ == keywords@[1]@); }
            if t@ == "import"@ { assert(t@ == keywords@[2]@); }
            if t@ == "type"@ { assert(t@ == keywords@[3]@); }
            if t@ == "variant"@ { assert(t@ == keywords@[4]@); }
            if t@ == "try"@ { assert(t@ == keywords@[5]@); }
            if t@ == "else"@ { assert(t@ == keywords@[6]@); }
            if t@ == "dict"@ { assert(t@ == keywords@[7]@); }
            if t@ == "set"@ { assert(t@ == keywords@[8]@); }
            if t@ == "ordered_set"@ { assert(t@ == keywords@[9]@); }
            if t@ == "await"@ { assert(t@ == keywords@[10]@); }
            if t@ == "yield"@ { assert(t@ == keywords@[11]@); }
        }
    }
    if kw {
        return Class::Kw;
    }
    let lit = is_one_of(t, &literals);
    proof {
        if t@ == "true"@ { assert(t@ == literals@[0]@); }
        if t@ == "false"@ { assert(t@ == literals@[1]@); }
    }
    if lit {
        return Class::KwB;
    }
    let ty = is_one_of(t, &types);
    proof {
        if is_builtin_type(t@) {
            if t@ == "u8"@ { assert(t@ == types@[0]@); }
            if t@ == "u16"@ { assert(t@ == types@[1]@); }
            if t@ == "u32"@ { assert(t@ == types@[2]@); }
            if t@ == "u64"@ { assert(t@ == types@[3]@); }
            if t@ == "i8"@ { assert(t@ == types@[4]@); }
            if t@ == "i16"@ { assert(t@ == types@[5]@); }
            if t@ == "i32"@ { assert(t@ == types@[6]@); }
            if t@ == "i64"@ { assert(t@ == types@[7]@); }
            if t@ == "f16"@ { assert(t@ == types@[8]@); }
            if t@ == "f32"@ { assert(t@ == types@[9]@); }
            if t@ == "f64"@ { assert(t@ == types@[10]@); }
            if t@ == "num"@ { assert(t@ == types@[11]@); }
            if t@ == "int"@ { assert(t@ == types@[12]@); }
            if t@ == "uint"@ { assert(t@ == types@[13]@); }
            if t@ == "float"@ { assert(t@ == types@[14]@); }
            if t@ == "dec"@ { assert(t@ == types@[15]@); }
            if t@ == "str"@ { assert(t@ == types@[16]@); }
        }
    }
    if ty {
        return Class::Ty;
    }
    let op = is_one_of(t, &word_ops);
    proof {
        if is_word_op(t@) {
            if t@ == "not"@ { assert(t@ == word_ops@[0]@); }
            if t@ == "and"@ { assert(t@ == word_ops@[1]@); }
            if t@ == "or"@ { assert(t@ == word_ops@[2]@); }
            if t@ == "xor"@ { assert(t@ == word_ops@[3]@); }
            if t@ == "in"@ { assert(t@ == word_ops@[4]@); }
        }
    }
    if op {
        return Class::Op;
    }
    if str_eq(t, "_") {
        Class::Wc
    } else {
        Class::Ident
    }
}

fn classify_sep(t: &str) -> (c: Class)
    ensures
        c == sep_class(t@),
{
    if str_eq(t, "|=") || str_eq(t, "|") {
        Class::OpPipe
    } else if str_eq(t, "=") {
        Class::OpAsgn
    } else if str_eq(t, "...") || str_eq(t, "..") {
        Class::OpRng
    } else if str_eq(t, ".") {
        Class::OpDot
    } else {
        Class::Op
    }
}

// ASCII bytes the lexer pass looks for.
const ZERO: u8 = 48;
const LOWER_X: u8 = 120;
const UPPER_X: u8 = 88;
const LOWER_O: u8 = 111;
const UPPER_O: u8 = 79;
const LOWER_B: u8 = 98;
const UPPER_B: u8 = 66;
const LOWER_E: u8 = 101;
const UPPER_E: u8 = 69;
const LOWER_D: u8 = 100;
const UPPER_D: u8 = 68;
const BACKSLASH: u8 = 92;
const LOWER_U: u8 = 117;
const OPEN_BRACE: u8 = 123;
const CLOSE_BRACE: u8 = 125;

/// Priority of lexer annotations.
pub open spec fn lexer_priority() -> u8 {
    5
}

/// Integer text starting with a base prefix `0x`, `0o` or `0b` (any case).
pub open spec fn has_base_prefix(b: Seq<u8>) -> bool {
    &&& b.len() >= 2
    &&& b[0] == 48u8
    &&& (b[1] == 120u8 || b[1] == 88u8 || b[1] == 111u8 || b[1] == 79u8 || b[1] == 98u8 || b[1] == 66u8)
}

/// Index of the first `e` or `E` in `b` at or after `from`.
pub open spec fn exp_pos_from(b: Seq<u8>, from: int) -> Option<int>
    decreases b.len() - from,
{
    if from < 0 || from >= b.len() {
        None
    } else if b[from] == 101u8 || b[from] == 69u8 {
        Some(from)
    } else {
        exp_pos_from(b, from + 1)
    }
}

/// Decimal text ending in `d` or `D`.
pub open spec fn has_decimal_suffix(b: Seq<u8>) -> bool {
    b.len() > 0 && (b.last() == 100u8 || b.last() == 68u8)
}

/// Sub-token annotations of a numeric literal at `base`: base prefixes,
/// exponent markers and decimal suffixes are `num-b`, the rest `num`.
pub open spec fn number_anns(base: int, b: Seq<u8>, kind: TokenKind) -> Seq<Ann> {
    let p = lexer_priority();
    let n = b.len() as int;
    match kind {
        TokenKind::Int => if has_base_prefix(b) {
            opt_ann(base, base + 1, Class::Num, p) + opt_ann(base + 1, base + 2, Class::NumB, p)
                + if n > 2 { opt_ann(base + 2, base + n, Class::Num, p) } else { seq![] }
        } else {
            opt_ann(base, base + n, Class::Num, p)
        },
        TokenKind::Float => match exp_pos_from(b, 0) {
            Some(pos) => opt_ann(base, base + pos, Class::Num, p) + opt_ann(
                base + pos,
                base + pos + 1,
                Class::NumB,
                p,
            ) + if n > pos + 1 { opt_ann(base + pos + 1, base + n, Class::Num, p) } else { seq![] },
            None => opt_ann(base, base + n, Class::Num, p),
        },
        TokenKind::Decimal => if has_decimal_suffix(b) {
            opt_ann(base, base + n - 1, Class::Num, p) + opt_ann(base + n - 1, base + n, Class::NumB, p)
        } else {
            opt_ann(base, base + n, Class::Num, p)
        },
        _ => opt_ann(base, base + n, Class::Num, p),
    }
}

fn ann_number(base: usize, b: &[u8], kind: TokenKind, anns: &mut Annotations)
    requires
        anns_wf(old(anns).anns@),
        base + b@.len() <= usize::MAX,
    ensures
        final(anns).anns@ == old(anns).anns@ + number_anns(base as int, b@, kind),
        anns_wf(final(anns).anns@),
{
    let p: u8 = 5;
    let n = b.len();
    match kind {
        TokenKind::Int => {
            if n >= 2 && b[0] == ZERO && (b[1] == LOWER_X || b[1] == UPPER_X || b[1] == LOWER_O || b[1] == UPPER_O
                || b[1] == LOWER_B || b[1] == UPPER_B) {
                anns.add(base, base + 1, Class::Num, p);
                anns.add(base + 1, base + 2, Class::NumB, p);
                if n > 2 {
                    anns.add(base + 2, base + n, Class::Num, p);
                }
            } else {
                anns.add(base, base + n, Class::Num, p);
            }
        },
        TokenKind::Float => {
            let mut i: usize = 0;
            while i < n && !(b[i] == LOWER_E || b[i] == UPPER_E)
                invariant
                    i <= n,
                    n == b@.len(),
                    exp_pos_from(b@, 0) == exp_pos_from(b@, i as int),
                decreases n - i,
            {
                i += 1;
            }
            if i < n {
                anns.add(base, base + i, Class::Num, p);
                anns.add(base + i, base + i + 1, Class::NumB, p);
                if n > i + 1 {
                    anns.add(base + i + 1, base + n, Class::Num, p);
                }
            } else {
                anns.add(base, base + n, Class::Num, p);
            }
        },
        TokenKind::Decimal => {
            if n > 0 && (b[n - 1] == LOWER_D || b[n - 1] == UPPER_D) {
                anns.add(base, base + n - 1, Class::Num, p);
                anns.add(base + n - 1, base + n, Class::NumB, p);
            } else {
                anns.add(base, base + n, Class::Num, p);
            }
        },
        _ => {
            anns.add(base, base + n, Class::Num, p);
        },
    }
    assert(final(anns).anns@ =~= old(anns).anns@ + number_anns(base as int, b@, kind));
}

/// Index of the first `}` in `b` at or after `from`.
pub open spec fn close_brace_from(b: Seq<u8>, from: int) -> Option<int>
    decreases b.len() - from,
{
    if from < 0 || from >= b.len() {
        None
    } else if b[from] == 125u8 {
        Some(from)
    } else {
        close_brace_from(b, from + 1)
    }
}

pub proof fn lemma_close_brace_from(b: Seq<u8>, from: int)
    ensures
        close_brace_from(b, from) matches Some(k) ==> from <= k < b.len() && b[k] == 125u8,
    decreases b.len() - from,
{
    if 0 <= from < b.len() && b[from] != 125u8 {
        lemma_close_brace_from(b, from + 1);
    }
}

/// A hexadecimal digit.
pub open spec fn is_hex_digit(x: u8) -> bool {
    (48u8 <= x && x <= 57u8) || (97u8 <= x && x <= 102u8) || (65u8 <= x && x <= 70u8)
}

/// Length of the escape sequence starting with the backslash at `i`:
/// `\u{...}` runs to its closing brace (`\u{` alone when there is none),
/// `\x` with two hex digits is four bytes, other escapes are the backslash
/// and the character after it, a trailing backslash is one byte.
pub open spec fn escape_len(b: Seq<u8>, i: int) -> int {
    if i + 1 < b.len() {
        if b[i + 1] == 117u8 && i + 2 < b.len() && b[i + 2] == 123u8 {
            match close_brace_from(b, i + 2) {
                Some(k) => k - i + 1,
                None => 3,
            }
        } else if b[i + 1] == 120u8 && i + 3 < b.len() && is_hex_digit(b[i + 2]) && is_hex_digit(b[i + 3]) {
            4
        } else {
            1 + utf8_width(b[i + 1])
        }
    } else {
        1
    }
}

/// Annotations of string text from byte `i` on, with plain text pending
/// since `seg`: escape sequences are `str-e`, the text between them `str`.
pub open spec fn str_text_anns(base: int, b: Seq<u8>, i: int, seg: int) -> Seq<Ann>
    decreases b.len() - i,
{
    let p = lexer_priority();
    let n = b.len() as int;
    if i >= n || i < 0 {
        if seg < n {
            opt_ann(base + seg, base + n, Class::Str, p)
        } else {
            seq![]
        }
    } else if b[i] == 92u8 {
        proof {
            lemma_close_brace_from(b, i + 2);
        }
        let pre = if seg < i { opt_ann(base + seg, base + i, Class::Str, p) } else { seq![] };
        let esc_end = if i + escape_len(b, i) < n { i + escape_len(b, i) } else { n };
        pre + opt_ann(base + i, base + esc_end, Class::StrE, p) + str_text_anns(base, b, esc_end, esc_end)
    } else {
        str_text_anns(base, b, i + 1, seg)
    }
}

fn is_hex(x: u8) -> (r: bool)
    ensures
        r == is_hex_digit(x),
{
    (48 <= x && x <= 57) || (97 <= x && x <= 102) || (65 <= x && x <= 70)
}

fn ann_str_text(base: usize, b: &[u8], anns: &mut Annotations)
    requires
        anns_wf(old(anns).anns@),
        base + b@.len() < usize::MAX,
    ensures
        final(anns).anns@ == old(anns).anns@ + str_text_anns(base as int, b@, 0, 0),
        anns_wf(final(anns).anns@),
{
    let p: u8 = 5;
    let n = b.len();
    let mut i: usize = 0;
    let mut seg: usize = 0;
    while i < n
        invariant
            n == b@.len(),
            base + n < usize::MAX,
            p == lexer_priority(),
            seg <= i <= n,
            anns_wf(anns.anns@),
            old(anns).anns@ + str_text_anns(base as int, b@, 0, 0) == anns.anns@ + str_text_anns(
                base as int,
                b@,
                i as int,
                seg as int,
            ),
        decreases n - i,
    {
        if b[i] == BACKSLASH {
            let ghost before = anns.anns@;
            if seg < i {
                anns.add(base + seg, base + i, Class::Str, p);
            }
            let esc_len: usize = if i + 1 < n {
                if b[i + 1] == LOWER_U && i + 2 < n && b[i + 2] == OPEN_BRACE {
                    let mut k = i + 2;
                    while k < n && b[k] != CLOSE_BRACE
                        invariant
                            i + 2 <= k <= n,
                            n == b@.len(),
                            close_brace_from(b@, i + 2) == close_brace_from(b@, k as int),
                        decreases n - k,
                    {
                        k += 1;
                    }
                    if k < n {
                        k - i + 1
                    } else {
                        3
                    }
                } else if b[i + 1] == LOWER_X && i + 3 < n && is_hex(b[i + 2]) && is_hex(b[i + 3]) {
                    4
                } else {
                    let x = b[i + 1];
                    if x >= 240 {
                        5
                    } else if x >= 224 {
                        4
                    } else if x >= 192 {
                        3
                    } else {
                        2
                    }
                }
            } else {
                1
            };
            let esc_end = if esc_len < n - i { i + esc_len } else { n };
            anns.add(base + i, base + esc_end, Class::StrE, p);
            assert(anns.anns@ =~= before + (if seg < i { opt_ann(base + seg, base + i, Class::Str, p) } else { seq![] })
                + opt_ann(base + i, base + esc_end, Class::StrE, p));
            i = esc_end;
            seg = i;
        } else {
            i += 1;
        }
    }
    if seg < n {
        anns.add(base + seg, base + n, Class::Str, p);
    }
    assert(final(anns).anns@ =~= old(anns).anns@ + str_text_anns(base as int, b@, 0, 0));
}

/// Annotations the lexer pass makes for one token.
pub open spec fn token_anns(t: Token) -> Seq<Ann> {
    let s = t.start as int;
    let e = t.end as int;
    let p = lexer_priority();
    match t.kind {
        TokenKind::Ident => opt_ann(s, e, ident_class(t.text@), p),
        TokenKind::Int | TokenKind::Float | TokenKind::Decimal => number_anns(s, token_bytes(t), t.kind),
        TokenKind::Sep => opt_ann(s, e, sep_class(t.text@), p),
        TokenKind::Comma | TokenKind::Semicolon | TokenKind::Colon => opt_ann(s, e, Class::Op, p),
        TokenKind::Partial => opt_ann(s, e, Class::Ph, p),
        TokenKind::BracketOpen | TokenKind::BracketClose => opt_ann(s, e, Class::Br, p),
        TokenKind::StrStart | TokenKind::StrEnd => opt_ann(s, e, Class::Str, p),
        TokenKind::StrText => str_text_anns(s, token_bytes(t), 0, 0),
        TokenKind::StrExprStart | TokenKind::StrExprEnd => opt_ann(s, e, Class::StrE, p),
        TokenKind::Comment | TokenKind::CommentStart | TokenKind::CommentText
        | TokenKind::CommentEnd => opt_ann(s, e, Class::Cmt, p),
        _ => seq![],
    }
}

/// Annotations of a sequence of tokens, in token order.
pub open spec fn tokens_anns(ts: Seq<Token>) -> Seq<Ann>
    decreases ts.len(),
{
    if ts.len() == 0 {
        seq![]
    } else {
        tokens_anns(ts.drop_last()) + token_anns(ts.last())
    }
}

/// Index of the first end-of-input token at or after `from` (the length if none).
pub open spec fn eof_from(ts: Seq<Token>, from: int) -> int
    decreases ts.len() - from,
{
    if from < 0 || from >= ts.len() {
        ts.len() as int
    } else if ts[from].kind == TokenKind::Eof {
        from
    } else {
        eof_from(ts, from + 1)
    }
}

/// Annotations of the lexer pass: the tokens before the first end-of-input token.
pub open spec fn lexer_anns(ts: Seq<Token>) -> Seq<Ann> {
    tokens_anns(ts.take(eof_from(ts, 0)))
}

fn collect_lexer_anns(tokens: &Vec<Token>, anns: &mut Annotations)
    requires
        anns_wf(old(anns).anns@),
        tokens_fit(tokens@),
    ensures
        final(anns).anns@ == old(anns).anns@ + lexer_anns(tokens@),
        anns_wf(final(anns).anns@),
{
    let p: u8 = 5;
    let mut i: usize = 0;
    while i < tokens.len() && tokens[i].kind != TokenKind::Eof
        invariant
            i <= tokens@.len(),
            p == lexer_priority(),
            tokens_fit(tokens@),
            eof_from(tokens@, 0) == eof_from(tokens@, i as int),
            anns_wf(anns.anns@),
            anns.anns@ == old(anns).anns@ + tokens_anns(tokens@.take(i as int)),
        decreases tokens@.len() - i,
    {
        let tok = &tokens[i];
        let ghost before = anns.anns@;
        let s = tok.start;
        let e = tok.end;
        assert(token_fits(tokens@[i as int]));
        match tok.kind {
            TokenKind::Ident => {
                anns.add(s, e, classify_ident(tok.text.as_str()), p);
            },
            TokenKind::Int | TokenKind::Float | TokenKind::Decimal => {
                ann_number(s, tok.text.as_str().as_bytes(), tok.kind, anns);
            },
            TokenKind::Sep => {
                anns.add(s, e, classify_sep(tok.text.as_str()), p);
            },
            TokenKind::Comma | TokenKind::Semicolon | TokenKind::Colon => {
                anns.add(s, e, Class::Op, p);
            },
            TokenKind::Partial => {
                anns.add(s, e, Class::Ph, p);
            },
            TokenKind::BracketOpen | TokenKind::BracketClose => {
                anns.add(s, e, Class::Br, p);
            },
            TokenKind::StrStart | TokenKind::StrEnd => {
                anns.add(s, e, Class::Str, p);
            },
            TokenKind::StrText => {
                ann_str_text(s, tok.text.as_str().as_bytes(), anns);
            },
            TokenKind::StrExprStart | TokenKind::StrExprEnd => {
                anns.add(s, e, Class::StrE, p);
            },
            TokenKind::Comment | TokenKind::CommentStart | TokenKind::CommentText
            | TokenKind::CommentEnd => {
                anns.add(s, e, Class::Cmt, p);
            },
            _ => {},
        }
        assert(anns.anns@ =~= before + token_anns(tokens@[i as int]));
        assert(tokens@.take(i + 1).drop_last() =~= tokens@.take(i as int));
        i += 1;
    }
    assert(i == eof_from(tokens@, 0));
}

// ---- syntax-tree pass ------------------------------------------------------------

/// A byte range in the snippet.
#[derive(Clone, Copy, Debug, PartialEq, Eq, Structural)]
pub struct Loc {
    pub start: usize,
    pub end: usize,
}

/// A node of a parsed Fink snippet: its kind and its byte range.
#[derive(Debug)]
pub struct Node {
    pub kind: NodeKind,
    pub loc: Loc,
}

/// The node kinds that the highlighter tells apart. Nodes whose children are
/// only visited in order (templates, modules, patterns, operators, bindings,
/// comparisons, unary operators, `try`, `yield`, spreads, functions,
/// `match`) are `Nested`; literals, partials and wildcards are `Leaf`.
#[derive(Debug)]
pub enum NodeKind {
    Ident,
    Apply { func: Box<Node>, args: Vec<Node> },
    Pipe(Vec<Node>),
    Member { op: Loc, lhs: Box<Node>, rhs: Box<Node> },
    LitRec { open: Loc, close: Loc, items: Vec<Node> },
    LitSeq { open: Loc, close: Loc, items: Vec<Node> },
    Group { open: Loc, close: Loc, inner: Box<Node> },
    Block { name: Box<Node>, params: Box<Node>, body: Vec<Node> },
    Arm { lhs: Box<Node>, body: Vec<Node> },
    Nested(Vec<Node>),
    Leaf,
}

/// Priority of syntax-tree annotations.
pub open spec fn ast_priority() -> u8 {
    10
}

pub open spec fn loc_ann(l: Loc, c: Class) -> Seq<Ann> {
    opt_ann(l.start as int, l.end as int, c, ast_priority())
}

pub open spec fn is_ident(n: Node) -> bool {
    n.kind is Ident
}

/// Bracket class at a nesting depth (from 1, cycling through three classes).
pub open spec fn bracket_class(depth: int) -> Class {
    let r = (depth - 1) % 3;
    if r == 0 {
        Class::Br1
    } else if r == 1 {
        Class::Br2
    } else {
        Class::Br3
    }
}

fn br_class(depth: usize) -> (c: Class)
    requires
        depth >= 1,
    ensures
        c == bracket_class(depth as int),
{
    let r = (depth - 1) % 3;
    if r == 0 {
        Class::Br1
    } else if r == 1 {
        Class::Br2
    } else {
        Class::Br3
    }
}

/// The node called by an application: the right-most member of a member chain.
pub open spec fn callee(n: Node) -> Node
    decreases n,
{
    match n.kind {
        NodeKind::Member { rhs, .. } => callee(*rhs),
        _ => n,
    }
}

fn resolve_callee(n: &Node) -> (c: &Node)
    ensures
        *c == callee(*n),
    decreases n,
{
    match &n.kind {
        NodeKind::Member { rhs, .. } => resolve_callee(rhs),
        _ => n,
    }
}

/// An identifier callee adjacent to its first argument is a tag (`fmt'...'`, `10sec`).
pub open spec fn callee_class(c: Node, args: Seq<Node>) -> Class {
    if args.len() > 0 && (c.loc.end == args[0].loc.start || args[0].loc.end == c.loc.start) {
        Class::Tag
    } else {
        Class::Fn
    }
}

/// Annotations of the callee of an application.
pub open spec fn callee_anns(c: Node, args: Seq<Node>) -> Seq<Ann> {
    match c.kind {
        NodeKind::Ident => loc_ann(c.loc, callee_class(c, args)),
        NodeKind::Group { open, close, .. } => loc_ann(open, Class::Fn) + loc_ann(close, Class::Fn),
        _ => seq![],
    }
}

/// Annotations of the syntax-tree pass for a node at bracket depth `depth`.
pub open spec fn ast_anns(n: Node, depth: int) -> Seq<Ann>
    decreases n,
{
    match n.kind {
        NodeKind::Apply { func, args } => callee_anns(callee(*func), args@) + ast_anns(*func, depth)
            + list_anns(args@, depth),
        NodeKind::Pipe(cs) => pipe_anns(cs@, depth),
        NodeKind::Member { op, lhs, rhs } => loc_ann(op, Class::OpDot) + ast_anns(*lhs, depth) + if is_ident(
            *rhs,
        ) {
            loc_ann(rhs.loc, Class::Prop)
        } else {
            ast_anns(*rhs, depth)
        },
        NodeKind::LitRec { open, close, items } => loc_ann(open, bracket_class(depth)) + loc_ann(
            close,
            bracket_class(depth),
        ) + rec_items_anns(items@, depth + 1),
        NodeKind::LitSeq { open, close, items } => loc_ann(open, bracket_class(depth)) + loc_ann(
            close,
            bracket_class(depth),
        ) + list_anns(items@, depth + 1),
        NodeKind::Group { open, close, inner } => loc_ann(open, bracket_class(depth)) + loc_ann(
            close,
            bracket_class(depth),
        ) + ast_anns(*inner, depth + 1),
        NodeKind::Block { name, params, body } => (if is_ident(*name) {
            loc_ann(name.loc, Class::Blk)
        } else {
            seq![]
        }) + ast_anns(*params, depth) + list_anns(body@, depth),
        NodeKind::Arm { lhs, body } => ast_anns(*lhs, depth) + list_anns(body@, depth),
        NodeKind::Nested(cs) => list_anns(cs@, depth),
        NodeKind::Ident | NodeKind::Leaf => seq![],
    }
}

/// Annotations of a sequence of nodes, in order.
pub open spec fn list_anns(ns: Seq<Node>, depth: int) -> Seq<Ann>
    decreases ns,
{
    if ns.len() == 0 {
        seq![]
    } else {
        list_anns(ns.drop_last(), depth) + ast_anns(ns.last(), depth)
    }
}

/// Annotations of the stages of a pipe: a bare identifier stage is a function.
pub open spec fn pipe_anns(ns: Seq<Node>, depth: int) -> Seq<Ann>
    decreases ns,
{
    if ns.len() == 0 {
        seq![]
    } else {
        pipe_anns(ns.drop_last(), depth) + (if is_ident(ns.last()) {
            loc_ann(ns.last().loc, Class::Fn)
        } else {
            seq![]
        }) + ast_anns(ns.last(), depth)
    }
}

/// Annotations of the items of a record literal at depth `depth`: the
/// identifier left of an arm is a record key, or a plain identifier in the
/// shorthand form `{foo}`.
pub open spec fn rec_items_anns(ns: Seq<Node>, depth: int) -> Seq<Ann>
    decreases ns,
{
    if ns.len() == 0 {
        seq![]
    } else {
        rec_items_anns(ns.drop_last(), depth) + match ns.last().kind {
            NodeKind::Arm { lhs, body } => (if is_ident(*lhs) {
                loc_ann(lhs.loc, if body.len() == 0 { Class::Ident } else { Class::RecKey })
            } else {
                seq![]
            }) + ast_anns(*lhs, depth) + list_anns(body@, depth),
            _ => ast_anns(ns.last(), depth),
        }
    }
}

/// Height of a syntax tree (a leaf has height 1).
pub open spec fn height(n: Node) -> nat
    decreases n,
{
    1 + match n.kind {
        NodeKind::Apply { func, args } => max_nat(height(*func), list_height(args@)),
        NodeKind::Pipe(cs) => list_height(cs@),
        NodeKind::Member { lhs, rhs, .. } => max_nat(height(*lhs), height(*rhs)),
        NodeKind::LitRec { items, .. } => list_height(items@),
        NodeKind::LitSeq { items, .. } => list_height(items@),
        NodeKind::Group { inner, .. } => height(*inner),
        NodeKind::Block { name, params, body } => max_nat(
            max_nat(height(*name), height(*params)),
            list_height(body@),
        ),
        NodeKind::Arm { lhs, body } => max_nat(height(*lhs), list_height(body@)),
        NodeKind::Nested(cs) => list_height(cs@),
        NodeKind::Ident | NodeKind::Leaf => 0,
    }
}

/// Greatest height of the nodes of a sequence (0 when empty).
pub open spec fn list_height(ns: Seq<Node>) -> nat
    decreases ns,
{
    if ns.len() == 0 {
        0
    } else {
        max_nat(list_height(ns.drop_last()), height(ns.last()))
    }
}

pub open spec fn max_nat(a: nat, b: nat) -> nat {
    if a >= b {
        a
    } else {
        b
    }
}

proof fn lemma_list_height(ns: Seq<Node>, i: int)
    requires
        0 <= i < ns.len(),
    ensures
        height(ns[i]) <= list_height(ns),
        list_height(ns.take(i)) <= list_height(ns),
    decreases ns.len(),
{
    if i < ns.len() - 1 {
        lemma_list_height(ns.drop_last(), i);
        assert(ns.drop_last()[i] == ns[i]);
        assert(ns.drop_last().take(i) =~= ns.take(i));
    } else {
        assert(ns.drop_last() =~= ns.take(i));
    }
}

proof fn lemma_take_step(ns: Seq<Node>, i: int)
    requires
        0 <= i < ns.len(),
    ensures
        ns.take(i + 1).drop_last() == ns.take(i),
        ns.take(i + 1).last() == ns[i],
{
    assert(ns.take(i + 1).drop_last() =~= ns.take(i));
}

fn collect_list(ns: &Vec<Node>, anns: &mut Annotations, depth: usize)
    requires
        anns_wf(old(anns).anns@),
        depth >= 1,
        depth + list_height(ns@) <= usize::MAX,
    ensures
        final(anns).anns@ == old(anns).anns@ + list_anns(ns@, depth as int),
        anns_wf(final(anns).anns@),
    decreases ns@, 0nat,
{
    let mut i: usize = 0;
    while i < ns.len()
        invariant
            i <= ns@.len(),
            depth >= 1,
            depth + list_height(ns@) <= usize::MAX,
            anns_wf(anns.anns@),
            anns.anns@ == old(anns).anns@ + list_anns(ns@.take(i as int), depth as int),
        decreases ns@.len() - i,
    {
        proof {
            lemma_list_height(ns@, i as int);
            lemma_take_step(ns@, i as int);
        }
        collect_ast_anns(&ns[i], anns, depth);
        assert(anns.anns@ =~= old(anns).anns@ + list_anns(ns@.take(i + 1), depth as int));
        i += 1;
    }
    assert(ns@.take(ns@.len() as int) =~= ns@);
}

fn collect_pipe(cs: &Vec<Node>, anns: &mut Annotations, depth: usize)
    requires
        anns_wf(old(anns).anns@),
        depth >= 1,
        depth + list_height(cs@) <= usize::MAX,
    ensures
        final(anns).anns@ == old(anns).anns@ + pipe_anns(cs@, depth as int),
        anns_wf(final(anns).anns@),
    decreases cs@, 0nat,
{
    let p: u8 = 10;
    let mut i: usize = 0;
    while i < cs.len()
        invariant
            i <= cs@.len(),
            depth >= 1,
            p == ast_priority(),
            depth + list_height(cs@) <= usize::MAX,
            anns_wf(anns.anns@),
            anns.anns@ == old(anns).anns@ + pipe_anns(cs@.take(i as int), depth as int),
        decreases cs@.len() - i,
    {
        proof {
            lemma_list_height(cs@, i as int);
            lemma_take_step(cs@, i as int);
        }
        let child = &cs[i];
        if matches!(child.kind, NodeKind::Ident) {
            anns.add(child.loc.start, child.loc.end, Class::Fn, p);
        }
        collect_ast_anns(child, anns, depth);
        assert(anns.anns@ =~= old(anns).anns@ + pipe_anns(cs@.take(i + 1), depth as int));
        i += 1;
    }
    assert(cs@.take(cs@.len() as int) =~= cs@);
}

fn collect_rec_items(items: &Vec<Node>, anns: &mut Annotations, d: usize)
    requires
        anns_wf(old(anns).anns@),
        d >= 1,
        d + list_height(items@) <= usize::MAX,
    ensures
        final(anns).anns@ == old(anns).anns@ + rec_items_anns(items@, d as int),
        anns_wf(final(anns).anns@),
    decreases items@, 0nat,
{
    let p: u8 = 10;
    let mut i: usize = 0;
    while i < items.len()
        invariant
            i <= items@.len(),
            d >= 1,
            p == ast_priority(),
            d + list_height(items@) <= usize::MAX,
            anns_wf(anns.anns@),
            anns.anns@ == old(anns).anns@ + rec_items_anns(items@.take(i as int), d as int),
        decreases items@.len() - i,
    {
        proof {
            lemma_list_height(items@, i as int);
            lemma_take_step(items@, i as int);
        }
        let child = &items[i];
        match &child.kind {
            NodeKind::Arm { lhs, body } => {
                if matches!(lhs.kind, NodeKind::Ident) {
                    let class = if body.len() == 0 {
                        Class::Ident
                    } else {
                        Class::RecKey
                    };
                    anns.add(lhs.loc.start, lhs.loc.end, class, p);
                }
                assert(decreases_to!(items@ => items@[i as int]));
                collect_ast_anns(lhs, anns, d);
                collect_list(body, anns, d);
            },
            _ => {
                collect_ast_anns(child, anns, d);
            },
        }
        assert(anns.anns@ =~= old(anns).anns@ + rec_items_anns(items@.take(i + 1), d as int));
        i += 1;
    }
    assert(items@.take(items@.len() as int) =~= items@);
}

fn collect_ast_anns(node: &Node, anns: &mut Annotations, depth: usize)
    requires
        anns_wf(old(anns).anns@),
        depth >= 1,
        depth + height(*node) <= usize::MAX,
    ensures
        final(anns).anns@ == old(anns).anns@ + ast_anns(*node, depth as int),
        anns_wf(final(anns).anns@),
    decreases *node, 1nat,
{
    let p: u8 = 10;
    let ghost before = anns.anns@;
    match &node.kind {
        NodeKind::Apply { func, args } => {
            let c = resolve_callee(func);
            match &c.kind {
                NodeKind::Ident => {
                    let class = if args.len() > 0 && (c.loc.end == args[0].loc.start || args[0].loc.end
                        == c.loc.start) {
                        Class::Tag
                    } else {
                        Class::Fn
                    };
                    anns.add(c.loc.start, c.loc.end, class, p);
                },
                NodeKind::Group { open, close, .. } => {
                    anns.add(open.start, open.end, Class::Fn, p);
                    anns.add(close.start, close.end, Class::Fn, p);
                },
                _ => {},
            }
            let ghost mid = anns.anns@;
            assert(mid =~= before + callee_anns(callee(**func), args@));
            collect_ast_anns(func, anns, depth);
            collect_list(args, anns, depth);
        },
        NodeKind::Pipe(cs) => {
            collect_pipe(cs, anns, depth);
        },
        NodeKind::Member { op, lhs, rhs } => {
            anns.add(op.start, op.end, Class::OpDot, p);
            collect_ast_anns(lhs, anns, depth);
            if matches!(rhs.kind, NodeKind::Ident) {
                anns.add(rhs.loc.start, rhs.loc.end, Class::Prop, p);
            } else {
                collect_ast_anns(rhs, anns, depth);
            }
        },
        NodeKind::LitRec { open, close, items } => {
            let br = br_class(depth);
            anns.add(open.start, open.end, br, p);
            anns.add(close.start, close.end, br, p);
            collect_rec_items(items, anns, depth + 1);
        },
        NodeKind::LitSeq { open, close, items } => {
            let br = br_class(depth);
            anns.add(open.start, open.end, br, p);
            anns.add(close.start, close.end, br, p);
            collect_list(items, anns, depth + 1);
        },
        NodeKind::Group { open, close, inner } => {
            let br = br_class(depth);
            anns.add(open.start, open.end, br, p);
            anns.add(close.start, close.end, br, p);
            collect_ast_anns(inner, anns, depth + 1);
        },
        NodeKind::Block { name, params, body } => {
            if matches!(name.kind, NodeKind::Ident) {
                anns.add(name.loc.start, name.loc.end, Class::Blk, p);
            }
            collect_ast_anns(params, anns, depth);
            collect_list(body, anns, depth);
        },
        NodeKind::Arm { lhs, body } => {
            collect_ast_anns(lhs, anns, depth);
            collect_list(body, anns, depth);
        },
        NodeKind::Nested(cs) => {
            collect_list(cs, anns, depth);
        },
        NodeKind::Ident | NodeKind::Leaf => {},
    }
    assert(anns.anns@ =~= before + ast_anns(*node, depth as int));
}

// ---- resolution --------------------------------------------------------------

/// The annotations both passes make: the lexer pass first, then the
/// syntax-tree pass at bracket depth 1 when the snippet parsed.
pub open spec fn collected_anns(tokens: Seq<Token>, ast: Option<Node>) -> Seq<Ann> {
    lexer_anns(tokens) + match ast {
        Some(n) => ast_anns(n, 1),
        None => seq![],
    }
}

/// What `annotate` and `highlight` need of their inputs: positions derived
/// from tokens and the tree's depth fit in a `usize`.
pub open spec fn inputs_fit(tokens: Seq<Token>, ast: Option<Node>) -> bool {
    &&& tokens_fit(tokens)
    &&& (ast matches Some(n) ==> 1 + height(n) <= usize::MAX)
}

fn collect(tokens: &Vec<Token>, ast: &Option<Node>) -> (anns: Annotations)
    requires
        inputs_fit(tokens@, *ast),
    ensures
        anns.anns@ == collected_anns(tokens@, *ast),
        anns_wf(anns.anns@),
{
    let mut anns = Annotations::new();
    collect_lexer_anns(tokens, &mut anns);
    match ast {
        Some(n) => {
            collect_ast_anns(n, &mut anns, 1);
        },
        None => {},
    }
    assert(anns.anns@ =~= collected_anns(tokens@, *ast));
    anns
}

/// A resolved span: the byte range `start..end` has class `class`.
#[derive(Clone, Copy, Debug, PartialEq, Eq, Structural)]
pub struct Span {
    pub start: usize,
    pub end: usize,
    pub class: Class,
}

/// Index of the first annotation, from index `k` on, that starts at or after `cursor`.
pub open spec fn first_from(anns: Seq<Ann>, cursor: int, k: int) -> Option<int>
    decreases anns.len() - k,
{
    if k < 0 || k >= anns.len() {
        None
    } else if anns[k].start >= cursor {
        Some(k)
    } else {
        first_from(anns, cursor, k + 1)
    }
}

pub proof fn lemma_first_from(anns: Seq<Ann>, cursor: int, k: int)
    requires
        k >= 0,
    ensures
        first_from(anns, cursor, k) matches Some(i) ==> (k <= i < anns.len() && anns[i].start >= cursor
            && forall|j: int| k <= j < i ==> #[trigger] anns[j].start < cursor),
        first_from(anns, cursor, k) is None ==> forall|j: int|
            k <= j < anns.len() ==> #[trigger] anns[j].start < cursor,
    decreases anns.len() - k,
{
    if 0 <= k < anns.len() && anns[k].start < cursor {
        lemma_first_from(anns, cursor, k + 1);
    }
}

/// Spans resolved from `cursor` on, over ordered annotations, in a text of
/// `len` bytes: the first annotation starting at or after the cursor wins;
/// it is clipped to the text and the cursor moves to its end.
pub open spec fn resolve(anns: Seq<Ann>, len: int, cursor: int) -> Seq<Span>
    decreases (if cursor < len { len - cursor } else { 0 }),
{
    if cursor < 0 || cursor >= len {
        seq![]
    } else {
        proof {
            lemma_first_from(anns, cursor, 0);
        }
        match first_from(anns, cursor, 0) {
            None => seq![],
            Some(i) => {
                let a = anns[i];
                if a.start > cursor {
                    resolve(anns, len, a.start as int)
                } else {
                    let end: int = if a.end < len { a.end as int } else { len };
                    if end <= cursor {
                        seq![]
                    } else {
                        seq![Span { start: cursor as usize, end: end as usize, class: a.class }] + resolve(
                            anns,
                            len,
                            end,
                        )
                    }
                }
            },
        }
    }
}

fn resolve_spans(len: usize, anns: &Vec<Ann>) -> (spans: Vec<Span>)
    requires
        anns_wf(anns@),
    ensures
        spans@ == resolve(anns@, len as int, 0),
{
    let mut out: Vec<Span> = Vec::new();
    let mut cursor: usize = 0;
    let mut ann_idx: usize = 0;
    let n = anns.len();
    while cursor < len
        invariant
            n == anns@.len(),
            anns_wf(anns@),
            ann_idx <= n,
            forall|k: int| 0 <= k < ann_idx ==> #[trigger] anns@[k].start < cursor,
            out@ + resolve(anns@, len as int, cursor as int) == resolve(anns@, len as int, 0),
        decreases (if cursor < len { len - cursor } else { 0 }),
    {
        // Skip annotations that end at or before the cursor.
        while ann_idx < n && anns[ann_idx].end <= cursor
            invariant
                n == anns@.len(),
                anns_wf(anns@),
                ann_idx <= n,
                forall|k: int| 0 <= k < ann_idx ==> #[trigger] anns@[k].start < cursor,
            decreases n - ann_idx,
        {
            assert(anns@[ann_idx as int].start < anns@[ann_idx as int].end);
            ann_idx += 1;
        }
        // Find the first annotation starting at or after the cursor.
        let mut j = ann_idx;
        while j < n && anns[j].start < cursor
            invariant
                n == anns@.len(),
                ann_idx <= j <= n,
                forall|k: int| 0 <= k < j ==> #[trigger] anns@[k].start < cursor,
            decreases n - j,
        {
            j += 1;
        }
        proof {
            lemma_first_from(anns@, cursor as int, 0);
        }
        if j == n {
            assert(first_from(anns@, cursor as int, 0) is None);
            assert(out@ =~= out@ + resolve(anns@, len as int, len as int));
            cursor = len;
        } else {
            let a = anns[j];
            assert(first_from(anns@, cursor as int, 0) == Some(j as int));
            if a.start > cursor {
                cursor = a.start;
            } else {
                assert(a.start < a.end) by {
                    assert(anns@[j as int].start < anns@[j as int].end);
                }
                let end = if a.end < len {
                    a.end
                } else {
                    len
                };
                let ghost old_out = out@;
                out.push(Span { start: cursor, end, class: a.class });
                assert(out@ + resolve(anns@, len as int, end as int) =~= old_out + (seq![
                    Span { start: cursor, end, class: a.class },
                ] + resolve(anns@, len as int, end as int)));
                cursor = end;
                ann_idx += 1;
            }
        }
    }
    assert(out@ =~= out@ + resolve(anns@, len as int, cursor as int));
    out
}

/// Spans lie in `cursor..len`, each non-empty, in order and without overlap.
pub open spec fn spans_ordered(spans: Seq<Span>, cursor: int, len: int) -> bool {
    &&& forall|i: int| 0 <= i < spans.len() ==> cursor <= #[trigger] spans[i].start < spans[i].end <= len
    &&& forall|i: int, j: int| 0 <= i < j < spans.len() ==> #[trigger] spans[i].end <= #[trigger] spans[j].start
}

pub proof fn lemma_resolve_ordered(anns: Seq<Ann>, len: int, cursor: int)
    requires
        cursor >= 0,
    ensures
        spans_ordered(resolve(anns, len, cursor), cursor, len),
    decreases (if cursor < len { len - cursor } else { 0 }),
{
    if 0 <= cursor < len {
        lemma_first_from(anns, cursor, 0);
        match first_from(anns, cursor, 0) {
            None => {},
            Some(i) => {
                let a = anns[i];
                if a.start > cursor {
                    lemma_resolve_ordered(anns, len, a.start as int);
                } else {
                    let end: int = if a.end < len { a.end as int } else { len };
                    if end > cursor {
                        lemma_resolve_ordered(anns, len, end);
                        let rest = resolve(anns, len, end);
                        let all = resolve(anns, len, cursor);
                        assert(all == seq![Span { start: cursor as usize, end: end as usize, class: a.class }]
                            + rest);
                        assert forall|k: int, j: int| 0 <= k < j < all.len() implies #[trigger] all[k].end
                            <= #[trigger] all[j].start by {
                            if k > 0 {
                                assert(all[k] == rest[k - 1]);
                            }
                            assert(all[j] == rest[j - 1]);
                        }
                        assert forall|k: int| 0 <= k < all.len() implies cursor <= #[trigger] all[k].start
                            < all[k].end <= len by {
                            if k > 0 {
                                assert(all[k] == rest[k - 1]);
                            }
                        }
                    }
                }
            },
        }
    }
}

/// The spans of a snippet of `len` bytes: the annotations of both passes,
/// ordered, then resolved from the first byte on.
pub open spec fn snippet_spans(len: int, tokens: Seq<Token>, ast: Option<Node>) -> Seq<Span> {
    resolve(sorted_anns(collected_anns(tokens, ast)), len, 0)
}

fn snippet_spans_exec(src: &str, tokens: &Vec<Token>, ast: &Option<Node>) -> (spans: Vec<Span>)
    requires
        inputs_fit(tokens@, *ast),
    ensures
        spans@ == snippet_spans(src.spec_bytes().len() as int, tokens@, *ast),
        spans_ordered(spans@, 0, src.spec_bytes().len() as int),
{
    let mut anns = collect(tokens, ast);
    anns.sort();
    proof {
        lemma_resolve_ordered(anns.anns@, src.spec_bytes().len() as int, 0);
    }
    resolve_spans(src.as_bytes().len(), &anns.anns)
}

/// Return resolved annotation spans as (start, end, class) tuples.
/// Spans are non-overlapping and sorted by position; gaps between spans
/// are plain (unstyled) text.
pub fn annotate(src: &str, tokens: &Vec<Token>, ast: &Option<Node>) -> (res: Vec<(usize, usize, String)>)
    requires
        inputs_fit(tokens@, *ast),
    ensures
        ({
            let spans = snippet_spans(src.spec_bytes().len() as int, tokens@, *ast);
            &&& res@.len() == spans.len()
            &&& forall|i: int|
                0 <= i < res@.len() ==> {
                    &&& (#[trigger] res@[i]).0 == spans[i].start
                    &&& res@[i].1 == spans[i].end
                    &&& res@[i].2@ == spans[i].class.spec_name()
                }
        }),
        res@.map_values(|t: (usize, usize, String)| (t.0, t.1, t.2@)) == span_triples(
            snippet_spans(src.spec_bytes().len() as int, tokens@, *ast),
        ),
        forall|i: int| 0 <= i < res@.len() ==> (#[trigger] res@[i]).0 < res@[i].1 <= src.spec_bytes().len(),
        forall|i: int, j: int| 0 <= i < j < res@.len() ==> (#[trigger] res@[i]).1 <= (#[trigger] res@[j]).0,
{
    let spans = snippet_spans_exec(src, tokens, ast);
    let mut result: Vec<(usize, usize, String)> = Vec::new();
    let mut i: usize = 0;
    while i < spans.len()
        invariant
            i <= spans@.len(),
            result@.len() == i,
            forall|k: int|
                0 <= k < i ==> {
                    &&& (#[trigger] result@[k]).0 == spans@[k].start
                    &&& result@[k].1 == spans@[k].end
                    &&& result@[k].2@ == spans@[k].class.spec_name()
                },
        decreases spans@.len() - i,
    {
        let sp = spans[i];
        result.push((sp.start, sp.end, sp.class.name().to_owned()));
        i += 1;
    }
    assert(result@.map_values(|t: (usize, usize, String)| (t.0, t.1, t.2@)) =~= span_triples(spans@));
    result
}

/// HTML of a span: its text escaped, in an element of its class.
pub open spec fn span_html(b: Seq<u8>, sp: Span) -> Seq<char> {
    "<span class=\""@ + sp.class.spec_name() + "\">"@ + escape(piece(b, sp.start as int, sp.end as int), false)
        + "</span>"@
}

/// HTML of the text from `cursor` on with spans `spans`: the text between
/// spans is escaped and left plain.
pub open spec fn spans_html(b: Seq<u8>, spans: Seq<Span>, cursor: int) -> Seq<char>
    decreases spans.len(),
{
    if spans.len() == 0 {
        escape(piece(b, cursor, b.len() as int), false)
    } else {
        escape(piece(b, cursor, spans[0].start as int), false) + span_html(b, spans[0]) + spans_html(
            b,
            spans.drop_first(),
            spans[0].end as int,
        )
    }
}

/// Class names are made of lower-case letters, digits and hyphens.
pub proof fn lemma_class_name(c: Class)
    ensures
        forall|i: int|
            0 <= i < c.spec_name().len() ==> {
                let x = #[trigger] c.spec_name()[i];
                ('a' <= x && x <= 'z') || ('0' <= x && x <= '9') || x == '-'
            },
{
    match c {
        Class::Kw => reveal_strlit("kw"),
        Class::KwB => reveal_strlit("kw-b"),
        Class::Ty => reveal_strlit("ty"),
        Class::Fn => reveal_strlit("fn"),
        Class::Prop => reveal_strlit("prop"),
        Class::RecKey => reveal_strlit("rec-key"),
        Class::Blk => reveal_strlit("blk"),
        Class::Tag => reveal_strlit("tag"),
        Class::Ident => reveal_strlit("ident"),
        Class::Op => reveal_strlit("op"),
        Class::OpAsgn => reveal_strlit("op-asgn"),
        Class::OpPipe => reveal_strlit("op-pipe"),
        Class::OpRng => reveal_strlit("op-rng"),
        Class::OpDot => reveal_strlit("op-dot"),
        Class::Br => reveal_strlit("br"),
        Class::Br1 => reveal_strlit("br-1"),
        Class::Br2 => reveal_strlit("br-2"),
        Class::Br3 => reveal_strlit("br-3"),
        Class::Str => reveal_strlit("str"),
        Class::StrE => reveal_strlit("str-e"),
        Class::Num => reveal_strlit("num"),
        Class::NumB => reveal_strlit("num-b"),
        Class::Cmt => reveal_strlit("cmt"),
        Class::Ph => reveal_strlit("ph"),
        Class::Wc => reveal_strlit("wc"),
    }
}

/// Highlighting changes no text: outside its tags, the HTML of a snippet
/// from `cursor` on shows exactly the escaped text of the snippet from
/// `cursor` on.
pub proof fn lemma_highlight_keeps_text(b: Seq<u8>, spans: Seq<Span>, cursor: int)
    requires
        valid_utf8(b),
        0 <= cursor <= b.len(),
        is_char_boundary(b, cursor),
        spans_ordered(spans, cursor, b.len() as int),
        spans_on_char_boundaries(b, spans),
    ensures
        visible(spans_html(b, spans, cursor)) == escape(piece(b, cursor, b.len() as int), false),
    decreases spans.len(),
{
    is_char_boundary_start_end_of_seq(b);
    if spans.len() == 0 {
        let e = escape(piece(b, cursor, b.len() as int), false);
        lemma_escape_no_lt(piece(b, cursor, b.len() as int), false);
        lemma_visible_text(e, seq![]);
        assert(e + Seq::<char>::empty() =~= e);
    } else {
        let sp = spans[0];
        let rest_spans = spans.drop_first();
        assert forall|i: int| 0 <= i < rest_spans.len() implies is_char_boundary(b, (#[trigger] rest_spans[i]).start as int)
            && is_char_boundary(b, rest_spans[i].end as int) by {
            assert(rest_spans[i] == spans[i + 1]);
        }
        assert forall|i: int| 0 <= i < rest_spans.len() implies sp.end <= #[trigger] rest_spans[i].start
            < rest_spans[i].end <= b.len() by {
            assert(rest_spans[i] == spans[i + 1]);
            assert(spans[0].end <= spans[i + 1].start);
        }
        assert forall|i: int, j: int| 0 <= i < j < rest_spans.len() implies #[trigger] rest_spans[i].end
            <= #[trigger] rest_spans[j].start by {
            assert(rest_spans[i] == spans[i + 1] && rest_spans[j] == spans[j + 1]);
        }
        lemma_highlight_keeps_text(b, rest_spans, sp.end as int);
        let rest = spans_html(b, rest_spans, sp.end as int);
        let e1 = escape(piece(b, cursor, sp.start as int), false);
        let e2 = escape(piece(b, sp.start as int, sp.end as int), false);
        let e3 = escape(piece(b, sp.end as int, b.len() as int), false);
        reveal_strlit("<span class=\"");
        reveal_strlit("\">");
        reveal_strlit("</span>");
        let t1 = "<span class=\""@ + sp.class.spec_name() + "\">"@;
        let t2 = "</span>"@;
        lemma_class_name(sp.class);
        assert forall|i: int| 0 < i < t1.len() - 1 implies t1[i] != '>' by {
            let n = sp.class.spec_name();
            if 13 <= i < 13 + n.len() {
                assert(t1[i] == n[i - 13]);
            }
        }
        assert(spans_html(b, spans, cursor) =~= e1 + (t1 + (e2 + (t2 + rest))));
        lemma_escape_no_lt(piece(b, cursor, sp.start as int), false);
        lemma_escape_no_lt(piece(b, sp.start as int, sp.end as int), false);
        lemma_visible_text(e1, t1 + (e2 + (t2 + rest)));
        lemma_visible_tag(t1, e2 + (t2 + rest));
        lemma_visible_text(e2, t2 + rest);
        lemma_visible_tag(t2, rest);
        lemma_piece_concat(b, cursor, sp.start as int, sp.end as int);
        lemma_piece_concat(b, cursor, sp.end as int, b.len() as int);
        lemma_escape_concat(piece(b, cursor, sp.start as int), piece(b, sp.start as int, sp.end as int), false);
        lemma_escape_concat(piece(b, cursor, sp.end as int), piece(b, sp.end as int, b.len() as int), false);
        assert(e1 + (e2 + e3) =~= (e1 + e2) + e3);
    }
}

/// Every span of the snippet starts and ends on a character boundary of its text.
pub open spec fn spans_on_char_boundaries(b: Seq<u8>, spans: Seq<Span>) -> bool {
    forall|i: int|
        0 <= i < spans.len() ==> is_char_boundary(b, (#[trigger] spans[i]).start as int)
            && is_char_boundary(b, spans[i].end as int)
}

/// Whether the spans handed out by `annotate` start and end on character
/// boundaries of `src`, as `highlight` requires.
pub fn spans_fit_chars(src: &str, spans: &Vec<(usize, usize, String)>) -> (r: bool)
    ensures
        r == forall|i: int|
            0 <= i < spans@.len() ==> is_char_boundary(src.spec_bytes(), (#[trigger] spans@[i]).0 as int)
                && is_char_boundary(src.spec_bytes(), spans@[i].1 as int),
{
    let mut i: usize = 0;
    while i < spans.len()
        invariant
            i <= spans@.len(),
            forall|k: int|
                0 <= k < i ==> is_char_boundary(src.spec_bytes(), (#[trigger] spans@[k]).0 as int)
                    && is_char_boundary(src.spec_bytes(), spans@[k].1 as int),
        decreases spans@.len() - i,
    {
        if !(src.is_char_boundary(spans[i].0) && src.is_char_boundary(spans[i].1)) {
            return false;
        }
        i += 1;
    }
    true
}

#[verifier::spinoff_prover]
#[verifier::rlimit(40)]
fn render_spans(src: &str, spans: &Vec<Span>) -> (out: String)
    requires
        spans_ordered(spans@, 0, src.spec_bytes().len() as int),
        spans_on_char_boundaries(src.spec_bytes(), spans@),
    ensures
        out@ == spans_html(src.spec_bytes(), spans@, 0),
{
    broadcast use vstd::utf8::encode_utf8_valid_utf8, vstd::utf8::is_char_boundary_start_end_of_seq;

    let ghost b = src.spec_bytes();
    let mut out = String::new();
    let mut cursor: usize = 0;
    let mut i: usize = 0;
    assert(spans@.skip(0) =~= spans@);
    while i < spans.len()
        invariant
            b == src.spec_bytes(),
            i <= spans@.len(),
            spans_ordered(spans@, 0, b.len() as int),
            spans_on_char_boundaries(b, spans@),
            i == 0 ==> cursor == 0,
            i > 0 ==> cursor == spans@[i - 1].end,
            cursor <= b.len(),
            is_char_boundary(b, cursor as int),
            out@ + spans_html(b, spans@.skip(i as int), cursor as int) == spans_html(b, spans@, 0),
        decreases spans@.len() - i,
    {
        let sp = spans[i];
        assert(spans@.skip(i as int)[0] == sp);
        assert(spans@.skip(i as int).drop_first() =~= spans@.skip(i + 1));
        assert(i > 0 ==> spans@[i - 1].end <= sp.start);
        let gap = byte_slice(src, cursor, sp.start);
        push_escaped(&mut out, gap, false);
        out.append("<span class=\"");
        out.append(sp.class.name());
        out.append("\">");
        let text = byte_slice(src, sp.start, sp.end);
        push_escaped(&mut out, text, false);
        out.append("</span>");
        cursor = sp.end;
        i += 1;
    }
    let rest = byte_slice(src, cursor, src.as_bytes().len());
    push_escaped(&mut out, rest, false);
    out
}

/// Highlight a Fink source snippet, returning an HTML fragment.
/// Suitable for wrapping in `<pre><code>...</code></pre>`.
pub fn highlight(src: &str, tokens: &Vec<Token>, ast: &Option<Node>) -> (out: String)
    requires
        inputs_fit(tokens@, *ast),
        spans_on_char_boundaries(src.spec_bytes(), snippet_spans(src.spec_bytes().len() as int, tokens@, *ast)),
    ensures
        out@ == spans_html(src.spec_bytes(), snippet_spans(src.spec_bytes().len() as int, tokens@, *ast), 0),
        visible(out@) == escape(src@, false),
        out@ == triples_html(
            src.spec_bytes(),
            span_triples(snippet_spans(src.spec_bytes().len() as int, tokens@, *ast)),
            0,
        ),
{
    broadcast use vstd::utf8::encode_utf8_valid_utf8, vstd::utf8::encode_utf8_decode_utf8;

    let spans = snippet_spans_exec(src, tokens, ast);
    proof {
        let b = src.spec_bytes();
        assert(b.subrange(0, b.len() as int) =~= b);
        lemma_highlight_keeps_text(b, spans@, 0);
        lemma_highlight_is_annotate(b, spans@, 0);
    }
    render_spans(src, &spans)
}

/// HTML of the text from `cursor` on with spans given as (start, end,
/// class name): the text between spans is escaped and left plain.
pub open spec fn triples_html(b: Seq<u8>, spans: Seq<(usize, usize, Seq<char>)>, cursor: int) -> Seq<char>
    decreases spans.len(),
{
    if spans.len() == 0 {
        escape(piece(b, cursor, b.len() as int), false)
    } else {
        escape(piece(b, cursor, spans[0].0 as int), false) + "<span class=\""@ + spans[0].2 + "\">"@ + escape(
            piece(b, spans[0].0 as int, spans[0].1 as int),
            false,
        ) + "</span>"@ + triples_html(b, spans.drop_first(), spans[0].1 as int)
    }
}

/// The spans of a snippet as `annotate` hands them out.
pub open spec fn span_triples(spans: Seq<Span>) -> Seq<(usize, usize, Seq<char>)> {
    spans.map_values(|sp: Span| (sp.start, sp.end, sp.class.spec_name()))
}

/// What `highlight` writes is what `annotate` hands out: each span wrapped
/// in an element of its class, the escaped gaps between them plain.
pub proof fn lemma_highlight_is_annotate(b: Seq<u8>, spans: Seq<Span>, cursor: int)
    ensures
        spans_html(b, spans, cursor) == triples_html(b, span_triples(spans), cursor),
    decreases spans.len(),
{
    if spans.len() > 0 {
        lemma_highlight_is_annotate(b, spans.drop_first(), spans[0].end as int);
        assert(span_triples(spans).drop_first() =~= span_triples(spans.drop_first()));
        assert(spans_html(b, spans, cursor) =~= triples_html(b, span_triples(spans), cursor));
    }
}

/// A class the lexer pass gives: none of the classes only the syntax tree
/// tells (call sites, properties, record keys, block names, tags and
/// depth-coloured brackets).
pub open spec fn lexer_class(c: Class) -> bool {
    !(c == Class::Fn || c == Class::Prop || c == Class::RecKey || c == Class::Blk || c == Class::Tag || c
        == Class::Br1 || c == Class::Br2 || c == Class::Br3)
}

/// Every annotation has a lexer class.
pub open spec fn lexer_classes(anns: Seq<Ann>) -> bool {
    forall|i: int| 0 <= i < anns.len() ==> lexer_class(#[trigger] anns[i].class)
}

proof fn lemma_concat_lexer_classes(a: Seq<Ann>, b: Seq<Ann>)
    requires
        lexer_classes(a),
        lexer_classes(b),
    ensures
        lexer_classes(a + b),
{
    assert forall|i: int| 0 <= i < (a + b).len() implies lexer_class(#[trigger] (a + b)[i].class) by {
        if i < a.len() {
            assert((a + b)[i] == a[i]);
        } else {
            assert((a + b)[i] == b[i - a.len()]);
        }
    }
}

proof fn lemma_str_text_lexer_classes(base: int, b: Seq<u8>, i: int, seg: int)
    ensures
        lexer_classes(str_text_anns(base, b, i, seg)),
    decreases b.len() - i,
{
    let p = lexer_priority();
    let n = b.len() as int;
    if i >= n || i < 0 {
    } else if b[i] == 92u8 {
        lemma_close_brace_from(b, i + 2);
        let pre = if seg < i { opt_ann(base + seg, base + i, Class::Str, p) } else { seq![] };
        let esc_end = if i + escape_len(b, i) < n { i + escape_len(b, i) } else { n };
        lemma_str_text_lexer_classes(base, b, esc_end, esc_end);
        lemma_concat_lexer_classes(pre, opt_ann(base + i, base + esc_end, Class::StrE, p));
        lemma_concat_lexer_classes(
            pre + opt_ann(base + i, base + esc_end, Class::StrE, p),
            str_text_anns(base, b, esc_end, esc_end),
        );
    } else {
        lemma_str_text_lexer_classes(base, b, i + 1, seg);
    }
}

proof fn lemma_tokens_lexer_classes(ts: Seq<Token>)
    ensures
        lexer_classes(tokens_anns(ts)),
    decreases ts.len(),
{
    if ts.len() > 0 {
        lemma_tokens_lexer_classes(ts.drop_last());
        let t = ts.last();
        let s = t.start as int;
        let p = lexer_priority();
        let nb = number_anns(s, token_bytes(t), t.kind);
        if t.kind == TokenKind::StrText {
            lemma_str_text_lexer_classes(s, token_bytes(t), 0, 0);
        }
        if t.kind == TokenKind::Int || t.kind == TokenKind::Float || t.kind == TokenKind::Decimal {
            let b = token_bytes(t);
            let n = b.len() as int;
            match exp_pos_from(b, 0) {
                Some(pos) => {
                    lemma_concat_lexer_classes(opt_ann(s, s + pos, Class::Num, p), opt_ann(s + pos, s + pos + 1, Class::NumB, p));
                    lemma_concat_lexer_classes(
                        opt_ann(s, s + pos, Class::Num, p) + opt_ann(s + pos, s + pos + 1, Class::NumB, p),
                        if n > pos + 1 { opt_ann(s + pos + 1, s + n, Class::Num, p) } else { seq![] },
                    );
                },
                None => {},
            }
            lemma_concat_lexer_classes(opt_ann(s, s + 1, Class::Num, p), opt_ann(s + 1, s + 2, Class::NumB, p));
            lemma_concat_lexer_classes(
                opt_ann(s, s + 1, Class::Num, p) + opt_ann(s + 1, s + 2, Class::NumB, p),
                if n > 2 { opt_ann(s + 2, s + n, Class::Num, p) } else { seq![] },
            );
            lemma_concat_lexer_classes(opt_ann(s, s + n - 1, Class::Num, p), opt_ann(s + n - 1, s + n, Class::NumB, p));
            assert(lexer_classes(nb));
        }
        lemma_concat_lexer_classes(tokens_anns(ts.drop_last()), token_anns(t));
    }
}

proof fn lemma_resolve_classes(anns: Seq<Ann>, len: int, cursor: int)
    requires
        lexer_classes(anns),
    ensures
        forall|k: int|
            0 <= k < resolve(anns, len, cursor).len() ==> lexer_class(#[trigger] resolve(anns, len, cursor)[k].class),
    decreases (if cursor < len { len - cursor } else { 0 }),
{
    if 0 <= cursor < len {
        lemma_first_from(anns, cursor, 0);
        match first_from(anns, cursor, 0) {
            None => {},
            Some(i) => {
                let a = anns[i];
                if a.start > cursor {
                    lemma_resolve_classes(anns, len, a.start as int);
                } else {
                    let end: int = if a.end < len { a.end as int } else { len };
                    if end > cursor {
                        lemma_resolve_classes(anns, len, end);
                        let r = resolve(anns, len, cursor);
                        let rest = resolve(anns, len, end);
                        assert forall|k: int| 0 <= k < r.len() implies lexer_class(#[trigger] r[k].class) by {
                            if k > 0 {
                                assert(r[k] == rest[k - 1]);
                            }
                        }
                    }
                }
            },
        }
    }
}

/// Without a syntax tree (the snippet did not parse), highlighting resolves
/// the lexer annotations alone: keywords, operators, strings, numbers and
/// comments are still marked, and no span has a class only the syntax tree
/// tells.
pub proof fn lemma_lexer_only(len: int, tokens: Seq<Token>)
    ensures
        snippet_spans(len, tokens, None) == resolve(sorted_anns(lexer_anns(tokens)), len, 0),
        forall|k: int|
            0 <= k < snippet_spans(len, tokens, None).len() ==> lexer_class(
                #[trigger] snippet_spans(len, tokens, None)[k].class,
            ),
{
    broadcast use vstd::seq_lib::to_multiset_contains;

    assert(collected_anns(tokens, None) =~= lexer_anns(tokens));
    let la = lexer_anns(tokens);
    lemma_tokens_lexer_classes(tokens.take(eof_from(tokens, 0)));
    lemma_sorted_anns(la);
    let sa = sorted_anns(la);
    assert forall|i: int| 0 <= i < sa.len() implies lexer_class(#[trigger] sa[i].class) by {
        assert(sa.contains(sa[i]));
        assert(sa.to_multiset().count(sa[i]) > 0);
        assert(la.contains(sa[i]));
        let j = choose|j: int| 0 <= j < la.len() && la[j] == sa[i];
        assert(lexer_class(la[j].class));
    }
    lemma_resolve_classes(sa, len, 0);
}

// ---- positions on character boundaries -----------------------------------------

/// Every annotation starts and ends on a character boundary of `b`.
pub open spec fn anns_on_char_boundaries(b: Seq<u8>, anns: Seq<Ann>) -> bool {
    forall|i: int|
        0 <= i < anns.len() ==> is_char_boundary(b, (#[trigger] anns[i]).start as int) && is_char_boundary(
            b,
            anns[i].end as int,
        )
}

/// The token is the text of the snippet at its place, and starts and ends
/// on character boundaries.
pub open spec fn token_in_text(b: Seq<u8>, t: Token) -> bool {
    &&& t.start <= t.end <= b.len()
    &&& b.subrange(t.start as int, t.end as int) == token_bytes(t)
    &&& is_char_boundary(b, t.start as int)
    &&& is_char_boundary(b, t.end as int)
}

pub open spec fn tokens_in_text(b: Seq<u8>, ts: Seq<Token>) -> bool {
    forall|i: int| 0 <= i < ts.len() ==> #[trigger] token_in_text(b, ts[i])
}

/// A byte range that starts and ends on character boundaries of `b`.
pub open spec fn loc_on_char_boundaries(b: Seq<u8>, l: Loc) -> bool {
    is_char_boundary(b, l.start as int) && is_char_boundary(b, l.end as int)
}

/// Every position of the tree (its nodes, operators and brackets) lies on a
/// character boundary of `b`.
pub open spec fn node_on_char_boundaries(b: Seq<u8>, n: Node) -> bool
    decreases n,
{
    loc_on_char_boundaries(b, n.loc) && match n.kind {
        NodeKind::Apply { func, args } => node_on_char_boundaries(b, *func) && nodes_on_char_boundaries(b, args@),
        NodeKind::Pipe(cs) => nodes_on_char_boundaries(b, cs@),
        NodeKind::Member { op, lhs, rhs } => loc_on_char_boundaries(b, op) && node_on_char_boundaries(b, *lhs)
            && node_on_char_boundaries(b, *rhs),
        NodeKind::LitRec { open, close, items } => loc_on_char_boundaries(b, open) && loc_on_char_boundaries(
            b,
            close,
        ) && nodes_on_char_boundaries(b, items@),
        NodeKind::LitSeq { open, close, items } => loc_on_char_boundaries(b, open) && loc_on_char_boundaries(
            b,
            close,
        ) && nodes_on_char_boundaries(b, items@),
        NodeKind::Group { open, close, inner } => loc_on_char_boundaries(b, open) && loc_on_char_boundaries(
            b,
            close,
        ) && node_on_char_boundaries(b, *inner),
        NodeKind::Block { name, params, body } => node_on_char_boundaries(b, *name) && node_on_char_boundaries(
            b,
            *params,
        ) && nodes_on_char_boundaries(b, body@),
        NodeKind::Arm { lhs, body } => node_on_char_boundaries(b, *lhs) && nodes_on_char_boundaries(b, body@),
        NodeKind::Nested(cs) => nodes_on_char_boundaries(b, cs@),
        NodeKind::Ident | NodeKind::Leaf => true,
    }
}

pub open spec fn nodes_on_char_boundaries(b: Seq<u8>, ns: Seq<Node>) -> bool
    decreases ns,
{
    if ns.len() == 0 {
        true
    } else {
        nodes_on_char_boundaries(b, ns.drop_last()) && node_on_char_boundaries(b, ns.last())
    }
}

proof fn lemma_anns_on_concat(b: Seq<u8>, x: Seq<Ann>, y: Seq<Ann>)
    requires
        anns_on_char_boundaries(b, x),
        anns_on_char_boundaries(b, y),
    ensures
        anns_on_char_boundaries(b, x + y),
{
    assert forall|i: int| 0 <= i < (x + y).len() implies is_char_boundary(b, (#[trigger] (x + y)[i]).start as int)
        && is_char_boundary(b, (x + y)[i].end as int) by {
        if i < x.len() {
            assert((x + y)[i] == x[i]);
        } else {
            assert((x + y)[i] == y[i - x.len()]);
        }
    }
}

proof fn lemma_opt_ann_on(b: Seq<u8>, start: int, end: int, class: Class, priority: u8)
    requires
        is_char_boundary(b, start),
        is_char_boundary(b, end),
    ensures
        anns_on_char_boundaries(b, opt_ann(start, end, class, priority)),
{
}

proof fn lemma_callee_on(b: Seq<u8>, n: Node)
    requires
        node_on_char_boundaries(b, n),
    ensures
        node_on_char_boundaries(b, callee(n)),
    decreases n,
{
    if let NodeKind::Member { rhs, .. } = n.kind {
        lemma_callee_on(b, *rhs);
    }
}

proof fn lemma_ast_anns_on(b: Seq<u8>, n: Node, depth: int)
    requires
        node_on_char_boundaries(b, n),
    ensures
        anns_on_char_boundaries(b, ast_anns(n, depth)),
    decreases n,
{
    match n.kind {
        NodeKind::Apply { func, args } => {
            let c = callee(*func);
            lemma_callee_on(b, *func);
            assert(anns_on_char_boundaries(b, callee_anns(c, args@))) by {
                match c.kind {
                    NodeKind::Group { open, close, .. } => {
                        lemma_anns_on_concat(b, loc_ann(open, Class::Fn), loc_ann(close, Class::Fn));
                    },
                    _ => {},
                }
            }
            lemma_ast_anns_on(b, *func, depth);
            lemma_list_anns_on(b, args@, depth);
            lemma_anns_on_concat(b, callee_anns(c, args@), ast_anns(*func, depth));
            lemma_anns_on_concat(b, callee_anns(c, args@) + ast_anns(*func, depth), list_anns(args@, depth));
        },
        NodeKind::Pipe(cs) => {
            lemma_pipe_anns_on(b, cs@, depth);
        },
        NodeKind::Member { op, lhs, rhs } => {
            lemma_ast_anns_on(b, *lhs, depth);
            let r = if is_ident(*rhs) {
                loc_ann(rhs.loc, Class::Prop)
            } else {
                ast_anns(*rhs, depth)
            };
            assert(node_on_char_boundaries(b, *rhs));
            assert(loc_on_char_boundaries(b, rhs.loc));
            if !is_ident(*rhs) {
                lemma_ast_anns_on(b, *rhs, depth);
            } else {
                lemma_opt_ann_on(b, rhs.loc.start as int, rhs.loc.end as int, Class::Prop, ast_priority());
            }
            lemma_anns_on_concat(b, loc_ann(op, Class::OpDot), ast_anns(*lhs, depth));
            lemma_anns_on_concat(b, loc_ann(op, Class::OpDot) + ast_anns(*lhs, depth), r);
        },
        NodeKind::LitRec { open, close, items } => {
            let c = bracket_class(depth);
            lemma_rec_items_anns_on(b, items@, depth + 1);
            lemma_anns_on_concat(b, loc_ann(open, c), loc_ann(close, c));
            lemma_anns_on_concat(b, loc_ann(open, c) + loc_ann(close, c), rec_items_anns(items@, depth + 1));
        },
        NodeKind::LitSeq { open, close, items } => {
            let c = bracket_class(depth);
            lemma_list_anns_on(b, items@, depth + 1);
            lemma_anns_on_concat(b, loc_ann(open, c), loc_ann(close, c));
            lemma_anns_on_concat(b, loc_ann(open, c) + loc_ann(close, c), list_anns(items@, depth + 1));
        },
        NodeKind::Group { open, close, inner } => {
            let c = bracket_class(depth);
            lemma_ast_anns_on(b, *inner, depth + 1);
            lemma_anns_on_concat(b, loc_ann(open, c), loc_ann(close, c));
            lemma_anns_on_concat(b, loc_ann(open, c) + loc_ann(close, c), ast_anns(*inner, depth + 1));
        },
        NodeKind::Block { name, params, body } => {
            let h = if is_ident(*name) {
                loc_ann(name.loc, Class::Blk)
            } else {
                seq![]
            };
            assert(node_on_char_boundaries(b, *name));
            assert(loc_on_char_boundaries(b, name.loc));
            lemma_opt_ann_on(b, name.loc.start as int, name.loc.end as int, Class::Blk, ast_priority());
            lemma_ast_anns_on(b, *params, depth);
            lemma_list_anns_on(b, body@, depth);
            lemma_anns_on_concat(b, h, ast_anns(*params, depth));
            lemma_anns_on_concat(b, h + ast_anns(*params, depth), list_anns(body@, depth));
        },
        NodeKind::Arm { lhs, body } => {
            lemma_ast_anns_on(b, *lhs, depth);
            lemma_list_anns_on(b, body@, depth);
            lemma_anns_on_concat(b, ast_anns(*lhs, depth), list_anns(body@, depth));
        },
        NodeKind::Nested(cs) => {
            lemma_list_anns_on(b, cs@, depth);
        },
        NodeKind::Ident | NodeKind::Leaf => {},
    }
}

proof fn lemma_list_anns_on(b: Seq<u8>, ns: Seq<Node>, depth: int)
    requires
        nodes_on_char_boundaries(b, ns),
    ensures
        anns_on_char_boundaries(b, list_anns(ns, depth)),
    decreases ns,
{
    if ns.len() > 0 {
        lemma_list_anns_on(b, ns.drop_last(), depth);
        lemma_ast_anns_on(b, ns.last(), depth);
        lemma_anns_on_concat(b, list_anns(ns.drop_last(), depth), ast_anns(ns.last(), depth));
    }
}

proof fn lemma_pipe_anns_on(b: Seq<u8>, ns: Seq<Node>, depth: int)
    requires
        nodes_on_char_boundaries(b, ns),
    ensures
        anns_on_char_boundaries(b, pipe_anns(ns, depth)),
    decreases ns,
{
    if ns.len() > 0 {
        let last = ns.last();
        let h = if is_ident(last) {
            loc_ann(last.loc, Class::Fn)
        } else {
            seq![]
        };
        lemma_pipe_anns_on(b, ns.drop_last(), depth);
        assert(node_on_char_boundaries(b, last));
        assert(loc_on_char_boundaries(b, last.loc));
        lemma_opt_ann_on(b, last.loc.start as int, last.loc.end as int, Class::Fn, ast_priority());
        lemma_ast_anns_on(b, last, depth);
        lemma_anns_on_concat(b, pipe_anns(ns.drop_last(), depth), h);
        lemma_anns_on_concat(b, pipe_anns(ns.drop_last(), depth) + h, ast_anns(last, depth));
    }
}

proof fn lemma_rec_items_anns_on(b: Seq<u8>, ns: Seq<Node>, depth: int)
    requires
        nodes_on_char_boundaries(b, ns),
    ensures
        anns_on_char_boundaries(b, rec_items_anns(ns, depth)),
    decreases ns,
{
    if ns.len() > 0 {
        let last = ns.last();
        lemma_rec_items_anns_on(b, ns.drop_last(), depth);
        assert(node_on_char_boundaries(b, last));
        match last.kind {
            NodeKind::Arm { lhs, body } => {
                assert(node_on_char_boundaries(b, *lhs));
                assert(nodes_on_char_boundaries(b, body@));
                assert(loc_on_char_boundaries(b, lhs.loc));
                let h = if is_ident(*lhs) {
                    loc_ann(lhs.loc, if body.len() == 0 { Class::Ident } else { Class::RecKey })
                } else {
                    seq![]
                };
                lemma_ast_anns_on(b, *lhs, depth);
                lemma_list_anns_on(b, body@, depth);
                lemma_anns_on_concat(b, h, ast_anns(*lhs, depth));
                lemma_anns_on_concat(b, h + ast_anns(*lhs, depth), list_anns(body@, depth));
                lemma_anns_on_concat(
                    b,
                    rec_items_anns(ns.drop_last(), depth),
                    h + ast_anns(*lhs, depth) + list_anns(body@, depth),
                );
            },
            _ => {
                lemma_ast_anns_on(b, last, depth);
                lemma_anns_on_concat(b, rec_items_anns(ns.drop_last(), depth), ast_anns(last, depth));
            },
        }
    }
}

/// The string-text annotations of a token at `s` lie on character boundaries
/// of the snippet, from byte `i` of the token's text on with plain text
/// pending since the boundary `seg`.
proof fn lemma_str_text_anns_on(b: Seq<u8>, s: int, t: Seq<u8>, i: int, seg: int)
    requires
        valid_utf8(b),
        valid_utf8(t),
        0 <= s,
        s + t.len() <= b.len(),
        b.subrange(s, s + t.len()) == t,
        is_char_boundary(b, s + t.len()),
        0 <= i,
        0 <= seg <= i,
        seg <= t.len(),
        is_char_boundary(t, seg),
    ensures
        anns_on_char_boundaries(b, str_text_anns(s, t, i, seg)),
    decreases t.len() - i,
{
    let n = t.len() as int;
    let p = lexer_priority();
    is_char_boundary_start_end_of_seq(t);
    lemma_boundary_in(b, s, t, seg);
    lemma_boundary_in(b, s, t, n);
    if i >= n {
    } else if t[i] == 92u8 {
        lemma_close_brace_from(t, i + 2);
        lemma_ascii_boundary(t, i);
        lemma_boundary_in(b, s, t, i);
        let pre = if seg < i { opt_ann(s + seg, s + i, Class::Str, p) } else { seq![] };
        let esc_end = if i + escape_len(t, i) < n { i + escape_len(t, i) } else { n };
        assert(is_char_boundary(t, esc_end)) by {
            if i + escape_len(t, i) < n {
                if t[i + 1] == 117u8 && i + 2 < n && t[i + 2] == 123u8 {
                    match close_brace_from(t, i + 2) {
                        Some(k) => {
                            lemma_ascii_boundary(t, k);
                        },
                        None => {
                            lemma_ascii_boundary(t, i + 2);
                        },
                    }
                } else if t[i + 1] == 120u8 && i + 3 < n && is_hex_digit(t[i + 2]) && is_hex_digit(t[i + 3]) {
                    lemma_ascii_boundary(t, i + 3);
                } else {
                    lemma_char_boundary_next(t, i + 1);
                }
            }
        }
        lemma_boundary_in(b, s, t, esc_end);
        lemma_str_text_anns_on(b, s, t, esc_end, esc_end);
        lemma_anns_on_concat(b, pre, opt_ann(s + i, s + esc_end, Class::StrE, p));
        lemma_anns_on_concat(
            b,
            pre + opt_ann(s + i, s + esc_end, Class::StrE, p),
            str_text_anns(s, t, esc_end, esc_end),
        );
    } else {
        lemma_str_text_anns_on(b, s, t, i + 1, seg);
    }
}

proof fn lemma_number_anns_on(b: Seq<u8>, s: int, t: Seq<u8>, kind: TokenKind)
    requires
        valid_utf8(b),
        valid_utf8(t),
        0 <= s,
        s + t.len() <= b.len(),
        b.subrange(s, s + t.len()) == t,
        is_char_boundary(b, s),
        is_char_boundary(b, s + t.len()),
    ensures
        anns_on_char_boundaries(b, number_anns(s, t, kind)),
{
    let n = t.len() as int;
    let p = lexer_priority();
    is_char_boundary_start_end_of_seq(t);
    lemma_boundary_in(b, s, t, n);
    match kind {
        TokenKind::Int => {
            if has_base_prefix(t) {
                lemma_ascii_boundary(t, 0);
                lemma_ascii_boundary(t, 1);
                lemma_boundary_in(b, s, t, 1);
                lemma_boundary_in(b, s, t, 2);
                let x = opt_ann(s, s + 1, Class::Num, p);
                let y = opt_ann(s + 1, s + 2, Class::NumB, p);
                let z: Seq<Ann> = if n > 2 { opt_ann(s + 2, s + n, Class::Num, p) } else { seq![] };
                lemma_anns_on_concat(b, x, y);
                lemma_anns_on_concat(b, x + y, z);
            }
        },
        TokenKind::Float => {
            lemma_exp_pos_from(t, 0);
            match exp_pos_from(t, 0) {
                Some(pos) => {
                    lemma_ascii_boundary(t, pos);
                    lemma_boundary_in(b, s, t, pos);
                    lemma_boundary_in(b, s, t, pos + 1);
                    let x = opt_ann(s, s + pos, Class::Num, p);
                    let y = opt_ann(s + pos, s + pos + 1, Class::NumB, p);
                    let z: Seq<Ann> = if n > pos + 1 { opt_ann(s + pos + 1, s + n, Class::Num, p) } else { seq![] };
                    lemma_anns_on_concat(b, x, y);
                    lemma_anns_on_concat(b, x + y, z);
                },
                None => {},
            }
        },
        TokenKind::Decimal => {
            if has_decimal_suffix(t) {
                lemma_ascii_boundary(t, n - 1);
                lemma_boundary_in(b, s, t, n - 1);
                lemma_anns_on_concat(
                    b,
                    opt_ann(s, s + n - 1, Class::Num, p),
                    opt_ann(s + n - 1, s + n, Class::NumB, p),
                );
            }
        },
        _ => {},
    }
}

proof fn lemma_exp_pos_from(t: Seq<u8>, from: int)
    ensures
        exp_pos_from(t, from) matches Some(k) ==> 0 <= from <= k < t.len() && (t[k] == 101u8 || t[k] == 69u8),
    decreases t.len() - from,
{
    if 0 <= from < t.len() && !(t[from] == 101u8 || t[from] == 69u8) {
        lemma_exp_pos_from(t, from + 1);
    }
}

proof fn lemma_token_anns_on(b: Seq<u8>, t: Token)
    requires
        valid_utf8(b),
        token_in_text(b, t),
    ensures
        anns_on_char_boundaries(b, token_anns(t)),
{
    broadcast use vstd::utf8::encode_utf8_valid_utf8;

    let tb = token_bytes(t);
    let s = t.start as int;
    assert(tb.len() == t.end - t.start);
    match t.kind {
        TokenKind::Int | TokenKind::Float | TokenKind::Decimal => {
            lemma_number_anns_on(b, s, tb, t.kind);
        },
        TokenKind::StrText => {
            is_char_boundary_start_end_of_seq(tb);
            lemma_str_text_anns_on(b, s, tb, 0, 0);
        },
        _ => {},
    }
}

proof fn lemma_tokens_anns_on(b: Seq<u8>, ts: Seq<Token>)
    requires
        valid_utf8(b),
        tokens_in_text(b, ts),
    ensures
        anns_on_char_boundaries(b, tokens_anns(ts)),
    decreases ts.len(),
{
    if ts.len() > 0 {
        assert(tokens_in_text(b, ts.drop_last())) by {
            assert forall|i: int| 0 <= i < ts.drop_last().len() implies #[trigger] token_in_text(
                b,
                ts.drop_last()[i],
            ) by {
                assert(ts.drop_last()[i] == ts[i]);
            }
        }
        lemma_tokens_anns_on(b, ts.drop_last());
        assert(token_in_text(b, ts[ts.len() - 1]));
        lemma_token_anns_on(b, ts.last());
        lemma_anns_on_concat(b, tokens_anns(ts.drop_last()), token_anns(ts.last()));
    }
}

proof fn lemma_resolve_on(b: Seq<u8>, anns: Seq<Ann>, cursor: int)
    requires
        valid_utf8(b),
        anns_on_char_boundaries(b, anns),
        is_char_boundary(b, cursor),
    ensures
        spans_on_char_boundaries(b, resolve(anns, b.len() as int, cursor)),
    decreases (if cursor < b.len() { b.len() - cursor } else { 0 }),
{
    let len = b.len() as int;
    is_char_boundary_start_end_of_seq(b);
    if 0 <= cursor < len {
        lemma_first_from(anns, cursor, 0);
        match first_from(anns, cursor, 0) {
            None => {},
            Some(i) => {
                let a = anns[i];
                if a.start > cursor {
                    lemma_resolve_on(b, anns, a.start as int);
                } else {
                    let end: int = if a.end < len { a.end as int } else { len };
                    if end > cursor {
                        lemma_resolve_on(b, anns, end);
                        let rest = resolve(anns, len, end);
                        let all = resolve(anns, len, cursor);
                        assert(all == seq![Span { start: cursor as usize, end: end as usize, class: a.class }]
                            + rest);
                        assert forall|k: int| 0 <= k < all.len() implies is_char_boundary(
                            b,
                            (#[trigger] all[k]).start as int,
                        ) && is_char_boundary(b, all[k].end as int) by {
                            if k > 0 {
                                assert(all[k] == rest[k - 1]);
                            }
                        }
                    }
                }
            },
        }
    }
}

/// When every token is the text of the snippet at its place and starts and
/// ends on a character boundary, and so do the positions of the tree, every
/// resolved span (sub-token spans of numbers and escapes included) starts
/// and ends on a character boundary: what `highlight` and `render_svg` ask.
pub proof fn lemma_spans_on_char_boundaries(b: Seq<u8>, tokens: Seq<Token>, ast: Option<Node>)
    requires
        valid_utf8(b),
        tokens_in_text(b, tokens),
        ast matches Some(n) ==> node_on_char_boundaries(b, n),
    ensures
        spans_on_char_boundaries(b, snippet_spans(b.len() as int, tokens, ast)),
{
    let lexed = tokens.take(eof_from(tokens, 0));
    lemma_eof_from(tokens, 0);
    assert(tokens_in_text(b, lexed)) by {
        assert forall|i: int| 0 <= i < lexed.len() implies #[trigger] token_in_text(b, lexed[i]) by {
            assert(lexed[i] == tokens[i]);
        }
    }
    lemma_tokens_anns_on(b, lexed);
    let tree = match ast {
        Some(n) => ast_anns(n, 1),
        None => seq![],
    };
    if let Some(n) = ast {
        lemma_ast_anns_on(b, n, 1);
    }
    let all = collected_anns(tokens, ast);
    lemma_anns_on_concat(b, lexer_anns(tokens), tree);
    let sorted = sorted_anns(all);
    lemma_sorted_anns(all);
    assert(anns_on_char_boundaries(b, sorted)) by {
        broadcast use vstd::seq_lib::group_to_multiset_ensures;

        assert forall|i: int| 0 <= i < sorted.len() implies is_char_boundary(b, (#[trigger] sorted[i]).start as int)
            && is_char_boundary(b, sorted[i].end as int) by {
            assert(sorted.contains(sorted[i]));
            assert(sorted.to_multiset().count(sorted[i]) > 0);
            assert(all.contains(sorted[i]));
            let j = choose|j: int| 0 <= j < all.len() && all[j] == sorted[i];
            assert(all[j] == sorted[i]);
        }
    }
    is_char_boundary_start_end_of_seq(b);
    lemma_resolve_on(b, sorted, 0);
}

proof fn lemma_eof_from(ts: Seq<Token>, from: int)
    requires
        0 <= from <= ts.len(),
    ensures
        from <= eof_from(ts, from) <= ts.len(),
    decreases ts.len() - from,
{
    if from < ts.len() && ts[from].kind != TokenKind::Eof {
        lemma_eof_from(ts, from + 1);
    }
}

} // verus!
