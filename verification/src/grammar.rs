//! The line grammar of a linker memory-map report.
//!
//! A report is line oriented.  Five top-level section headers are
//! recognized; inside the memory-map section every line is classified into a
//! closed set of shapes: blank lines, linker directives (among them the
//! discard directive), bracketed informational entries, glob or name-only
//! placeholders, and map entries.  A map entry carries up to four fields,
//! in order: an optional section name (a leading token that is not a hex
//! number), one or two hex numbers, and an optional trailing source token.
//! A hex number first on the line is an address; two hex numbers are
//! address then size.  A single hex number after a name is that section's
//! declared size when it ends the line, and an address when a source token
//! follows it.  A source token separated from the numeric fields by a run of eight or
//! more spaces is a linker-synthetic stub and is recorded as no source at
//! all.  A line with trailing text after its source token, or a hex number
//! too large for 64 bits, matches no shape and is a grammar error.

use vstd::prelude::*;

use crate::scan::{
    find_non_ws, find_token_end, find_trim_end, is_blank, is_ws, range_eq_lit, skip_ws, token_end,
    trim_end_idx,
};
use crate::scan::{lemma_skip_ws_bounds, lemma_trim_end_bounds};

verus! {

/// The five top-level sections a report may contain.
#[derive(Clone, Copy, PartialEq, Eq, Structural, Debug)]
pub enum SectionKind {
    ArchiveMembers,
    DiscardedInput,
    MemoryConfig,
    MemoryMap,
    CrossRef,
}

/// The header line that introduces each top-level section.
pub open spec fn header_text(k: SectionKind) -> Seq<char> {
    match k {
        SectionKind::ArchiveMembers => "Archive member included to satisfy reference by file (symbol)"@,
        SectionKind::DiscardedInput => "Discarded input sections"@,
        SectionKind::MemoryConfig => "Memory Configuration"@,
        SectionKind::MemoryMap => "Linker script and memory map"@,
        SectionKind::CrossRef => "Cross Reference Table"@,
    }
}

/// Shape of one line, at the specification level.
pub enum LineShape {
    Blank,
    Header { section: SectionKind },
    DirectiveDiscard,
    DirectiveOther,
    Bracketed,
    Placeholder,
    Entry {
        name: Option<Seq<char>>,
        address: Option<u64>,
        size: Option<u64>,
        source: Option<Seq<char>>,
    },
    Bad,
}

/// Shape of one line, as executable data.
pub enum Line {
    Blank,
    Header(SectionKind),
    DirectiveDiscard,
    DirectiveOther,
    Bracketed,
    Placeholder,
    Entry {
        name: Option<Vec<char>>,
        address: Option<u64>,
        size: Option<u64>,
        source: Option<Vec<char>>,
    },
    Bad,
}

/// View of an optional character vector.
pub open spec fn opt_view(o: Option<Vec<char>>) -> Option<Seq<char>> {
    match o {
        Some(v) => Some(v@),
        None => None,
    }
}

impl View for Line {
    type V = LineShape;

    open spec fn view(&self) -> LineShape {
        match self {
            Line::Blank => LineShape::Blank,
            Line::Header(k) => LineShape::Header { section: *k },
            Line::DirectiveDiscard => LineShape::DirectiveDiscard,
            Line::DirectiveOther => LineShape::DirectiveOther,
            Line::Bracketed => LineShape::Bracketed,
            Line::Placeholder => LineShape::Placeholder,
            Line::Entry { name, address, size, source } => LineShape::Entry {
                name: opt_view(*name),
                address: *address,
                size: *size,
                source: opt_view(*source),
            },
            Line::Bad => LineShape::Bad,
        }
    }
}

/// A hexadecimal digit.
pub open spec fn is_hex_digit(c: char) -> bool {
    ('0' <= c && c <= '9') || ('a' <= c && c <= 'f') || ('A' <= c && c <= 'F')
}

/// Value of one hexadecimal digit.
pub open spec fn hex_digit_val(c: char) -> int {
    if '0' <= c && c <= '9' {
        (c as u32 as int) - ('0' as u32 as int)
    } else if 'a' <= c && c <= 'f' {
        10 + (c as u32 as int) - ('a' as u32 as int)
    } else {
        10 + (c as u32 as int) - ('A' as u32 as int)
    }
}

/// A token shaped like a hex number: `0x` followed by at least one digit.
pub open spec fn hex_shaped(t: Seq<char>) -> bool {
    t.len() >= 3 && t[0] == '0' && t[1] == 'x' && (forall|i: int|
        2 <= i < t.len() ==> is_hex_digit(#[trigger] t[i]))
}

/// Value of a sequence of hex digits, most significant first.
pub open spec fn hex_val(ds: Seq<char>) -> int
    decreases ds.len(),
{
    if ds.len() == 0 {
        0
    } else {
        16 * hex_val(ds.drop_last()) + hex_digit_val(ds.last())
    }
}

/// Numeric value of a hex-shaped token.
pub open spec fn hex_tok_val(t: Seq<char>) -> int {
    hex_val(t.skip(2))
}

pub proof fn lemma_hex_val_nonneg(ds: Seq<char>)
    requires
        forall|i: int| 0 <= i < ds.len() ==> is_hex_digit(#[trigger] ds[i]),
    ensures
        hex_val(ds) >= 0,
    decreases ds.len(),
{
    if ds.len() > 0 {
        lemma_hex_val_nonneg(ds.drop_last());
    }
}

/// The source field of a map entry: absent when the separating whitespace
/// run marks a linker-synthetic stub.
pub open spec fn source_field(s: Seq<char>, prev_end: int, p: int, e: int) -> Option<Seq<char>> {
    if p - prev_end >= 8 {
        None
    } else {
        Some(s.subrange(p, e))
    }
}

/// Classify the fields that follow the first hex number of a map entry.
/// `name` is the leading name token if there was one, `h1` the first hex
/// number's value, and `i` the index just past that number.
pub open spec fn fields_shape(s: Seq<char>, name: Option<Seq<char>>, h1: u64, i: int) -> LineShape {
    let p2 = skip_ws(s, i);
    if p2 == s.len() {
        match name {
            Some(n) => LineShape::Entry {
                name: Some(n),
                address: None,
                size: Some(h1),
                source: None,
            },
            None => LineShape::Entry { name: None, address: Some(h1), size: None, source: None },
        }
    } else {
        let e2 = token_end(s, p2);
        let t2 = s.subrange(p2, e2);
        if hex_shaped(t2) {
            if hex_tok_val(t2) > u64::MAX {
                LineShape::Bad
            } else {
                let h2 = hex_tok_val(t2) as u64;
                let p3 = skip_ws(s, e2);
                if p3 == s.len() {
                    LineShape::Entry { name, address: Some(h1), size: Some(h2), source: None }
                } else {
                    let e3 = token_end(s, p3);
                    if skip_ws(s, e3) != s.len() {
                        LineShape::Bad
                    } else {
                        LineShape::Entry {
                            name,
                            address: Some(h1),
                            size: Some(h2),
                            source: source_field(s, e2, p3, e3),
                        }
                    }
                }
            }
        } else {
            if skip_ws(s, e2) != s.len() {
                LineShape::Bad
            } else {
                LineShape::Entry {
                    name,
                    address: Some(h1),
                    size: None,
                    source: source_field(s, i, p2, e2),
                }
            }
        }
    }
}

/// Classification of one whole line.
pub open spec fn classify(s: Seq<char>) -> LineShape {
    if is_blank(s) {
        LineShape::Blank
    } else {
        let a = skip_ws(s, 0);
        let b = trim_end_idx(s);
        let body = s.subrange(a, b);
        if body == header_text(SectionKind::ArchiveMembers) {
            LineShape::Header { section: SectionKind::ArchiveMembers }
        } else if body == header_text(SectionKind::DiscardedInput) {
            LineShape::Header { section: SectionKind::DiscardedInput }
        } else if body == header_text(SectionKind::MemoryConfig) {
            LineShape::Header { section: SectionKind::MemoryConfig }
        } else if body == header_text(SectionKind::MemoryMap) {
            LineShape::Header { section: SectionKind::MemoryMap }
        } else if body == header_text(SectionKind::CrossRef) {
            LineShape::Header { section: SectionKind::CrossRef }
        } else {
            let e0 = token_end(s, a);
            let t0 = s.subrange(a, e0);
            if t0 == "/DISCARD/"@ {
                LineShape::DirectiveDiscard
            } else if t0 == "LOAD"@ || t0 == "OUTPUT"@ || t0 == "START"@ || t0 == "END"@ {
                LineShape::DirectiveOther
            } else if s[a] == '[' {
                LineShape::Bracketed
            } else if hex_shaped(t0) {
                if hex_tok_val(t0) > u64::MAX {
                    LineShape::Bad
                } else {
                    fields_shape(s, None, hex_tok_val(t0) as u64, e0)
                }
            } else {
                let p1 = skip_ws(s, e0);
                if p1 == s.len() {
                    LineShape::Placeholder
                } else {
                    let e1 = token_end(s, p1);
                    let t1 = s.subrange(p1, e1);
                    if hex_shaped(t1) {
                        if hex_tok_val(t1) > u64::MAX {
                            LineShape::Bad
                        } else {
                            fields_shape(s, Some(t0), hex_tok_val(t1) as u64, e1)
                        }
                    } else {
                        LineShape::Placeholder
                    }
                }
            }
        }
    }
}

/// The physical lines of a report: text split at every newline character,
/// the newline belonging to no line.  A trailing newline closes the last
/// line without opening a new one.
pub open spec fn split_lines(s: Seq<char>) -> Seq<Seq<char>>
    decreases s.len(),
{
    if s.len() == 0 {
        Seq::empty()
    } else if s[0] == '\n' {
        seq![Seq::<char>::empty()] + split_lines(s.drop_first())
    } else {
        let rest = split_lines(s.drop_first());
        if rest.len() == 0 {
            seq![s]
        } else {
            seq![seq![s[0]] + rest[0]] + rest.drop_first()
        }
    }
}

/// Splitting steps one whole line at a time: if the first newline of `s`
/// stands at `k`, the first line is `s[0..k)` and the rest of the text
/// splits on its own.
pub proof fn lemma_split_lines_chunk(s: Seq<char>, k: int)
    requires
        0 <= k <= s.len(),
        forall|j: int| 0 <= j < k ==> s[j] != '\n',
        k < s.len() ==> s[k] == '\n',
    ensures
        k == s.len() ==> split_lines(s) == if s.len() == 0 {
            Seq::<Seq<char>>::empty()
        } else {
            seq![s]
        },
        k < s.len() ==> split_lines(s) == seq![s.subrange(0, k)] + split_lines(
            s.subrange(k + 1, s.len() as int),
        ),
    decreases s.len(),
{
    if s.len() == 0 {
    } else if k == 0 {
        if k < s.len() {
            assert(s.subrange(0, 0) =~= Seq::<char>::empty());
            assert(s.subrange(1, s.len() as int) =~= s.drop_first());
            assert(split_lines(s) =~= seq![s.subrange(0, 0)] + split_lines(
                s.subrange(1, s.len() as int),
            ));
        }
    } else {
        let d = s.drop_first();
        assert forall|j: int| 0 <= j < k - 1 implies d[j] != '\n' by {
            assert(d[j] == s[j + 1]);
        }
        if k - 1 < d.len() {
            assert(d[k - 1] == s[k]);
        }
        lemma_split_lines_chunk(d, k - 1);
        if k == s.len() {
            if d.len() == 0 {
            } else {
                assert(split_lines(d) == seq![d]);
                assert(seq![s[0]] + d =~= s);
                assert(split_lines(s) =~= seq![s]);
            }
        } else {
            let rest = split_lines(d);
            assert(rest == seq![d.subrange(0, k - 1)] + split_lines(
                d.subrange(k, d.len() as int),
            ));
            assert(rest.len() > 0);
            assert(rest[0] == d.subrange(0, k - 1));
            assert(seq![s[0]] + d.subrange(0, k - 1) =~= s.subrange(0, k));
            assert(rest.drop_first() =~= split_lines(d.subrange(k, d.len() as int)));
            assert(d.subrange(k, d.len() as int) =~= s.subrange(k + 1, s.len() as int));
            assert(split_lines(s) =~= seq![s.subrange(0, k)] + split_lines(
                s.subrange(k + 1, s.len() as int),
            ));
        }
    }
}

/// Splits the report text into its lines; exec mirror of `split_lines`.
pub fn split_text(s: &Vec<char>) -> (lines: Vec<Vec<char>>)
    ensures
        lines.deep_view() == split_lines(s@),
{
    let mut lines: Vec<Vec<char>> = Vec::new();
    let ghost mut dv: Seq<Seq<char>> = Seq::empty();
    let mut i: usize = 0;
    proof {
        assert(s@.subrange(0, s@.len() as int) =~= s@);
        assert(dv =~= lines.deep_view());
    }
    while i < s.len()
        invariant
            i <= s.len(),
            dv == lines.deep_view(),
            split_lines(s@) == dv + split_lines(s@.subrange(i as int, s@.len() as int)),
        decreases s.len() - i,
    {
        let ghost tail = s@.subrange(i as int, s@.len() as int);
        let mut k: usize = i;
        while k < s.len() && s[k] != '\n'
            invariant
                i <= k <= s.len(),
                forall|j: int| i <= j < k ==> s@[j] != '\n',
            decreases s.len() - k,
        {
            k = k + 1;
        }
        let line = copy_range(s, i, k);
        proof {
            assert forall|j: int| 0 <= j < k - i implies tail[j] != '\n' by {
                assert(tail[j] == s@[i + j]);
            }
            if k < s.len() {
                assert(tail[k - i] == s@[k as int]);
            }
            lemma_split_lines_chunk(tail, k - i);
            assert(tail.subrange(0, k - i) =~= s@.subrange(i as int, k as int));
        }
        let ghost prev = lines@;
        lines.push(line);
        proof {
            assert(line.deep_view() =~= line@);
            assert forall|j: int| 0 <= j < prev.len() implies
                lines.deep_view()[j] == dv[j] by {
                assert(lines@[j] == prev[j]);
            }
            dv = dv.push(line@);
            assert(dv =~= lines.deep_view());
        }
        if k == s.len() {
            proof {
                assert(s@.subrange(i as int, k as int) =~= tail);
                assert(split_lines(s@.subrange(s@.len() as int, s@.len() as int))
                    =~= Seq::<Seq<char>>::empty());
                assert(split_lines(s@) =~= dv + split_lines(
                    s@.subrange(s@.len() as int, s@.len() as int),
                ));
            }
            i = s.len();
        } else {
            proof {
                assert(tail.subrange(k - i + 1, tail.len() as int) =~= s@.subrange(
                    k as int + 1,
                    s@.len() as int,
                ));
                assert(split_lines(s@) =~= dv + split_lines(
                    s@.subrange(k as int + 1, s@.len() as int),
                ));
            }
            i = k + 1;
        }
    }
    proof {
        assert(split_lines(s@.subrange(s@.len() as int, s@.len() as int)) =~= Seq::<Seq<char>>::empty());
        assert(lines.deep_view() =~= split_lines(s@));
    }
    lines
}

/// Result of reading one token as a hex number.
pub enum HexTok {
    NotHex,
    TooBig,
    Value(u64),
}

/// Reads the token `s[start..end)` as a hex number.
pub fn parse_hex_token(s: &Vec<char>, start: usize, end: usize) -> (r: HexTok)
    requires
        start <= end <= s.len(),
    ensures
        ({
            let t = s@.subrange(start as int, end as int);
            match r {
                HexTok::NotHex => !hex_shaped(t),
                HexTok::TooBig => hex_shaped(t) && hex_tok_val(t) > u64::MAX,
                HexTok::Value(v) => hex_shaped(t) && hex_tok_val(t) == v,
            }
        }),
{
    let ghost t = s@.subrange(start as int, end as int);
    if end - start < 3 {
        return HexTok::NotHex;
    }
    if s[start] != '0' || s[start + 1] != 'x' {
        proof {
            assert(t[0] == s@[start as int] && t[1] == s@[start as int + 1]);
        }
        return HexTok::NotHex;
    }
    let mut i: usize = start + 2;
    let mut acc: u128 = 0;
    let mut over = false;
    proof {
        assert(t.skip(2).subrange(0, 0) =~= Seq::<char>::empty());
    }
    while i < end
        invariant
            start + 2 <= i <= end <= s.len(),
            t == s@.subrange(start as int, end as int),
            t.len() == end - start,
            forall|j: int| 2 <= j < i - start ==> is_hex_digit(#[trigger] t[j]),
            !over ==> acc == hex_val(t.skip(2).subrange(0, i - start - 2)) && acc <= u64::MAX,
            over ==> hex_val(t.skip(2).subrange(0, i - start - 2)) > u64::MAX,
        decreases end - i,
    {
        let c = s[i];
        let d: u32 = if '0' <= c && c <= '9' {
            c as u32 - 48
        } else if 'a' <= c && c <= 'f' {
            c as u32 - 97 + 10
        } else if 'A' <= c && c <= 'F' {
            c as u32 - 65 + 10
        } else {
            proof {
                assert(t[i - start] == c);
                assert(!is_hex_digit(t[i - start]));
            }
            return HexTok::NotHex;
        };
        proof {
            assert(t[i - start] == c);
            assert(is_hex_digit(c) && hex_digit_val(c) == d as int);
            let pre = t.skip(2).subrange(0, i - start - 2);
            let cur = t.skip(2).subrange(0, i + 1 - start - 2);
            assert(cur.drop_last() =~= pre);
            assert(cur.last() == t[i - start]);
            assert(hex_val(cur) == 16 * hex_val(pre) + d);
            if over {
                assert forall|j: int| 0 <= j < pre.len() implies is_hex_digit(#[trigger] pre[j]) by {
                    assert(pre[j] == t[j + 2]);
                }
                lemma_hex_val_nonneg(pre);
            }
        }
        if !over {
            acc = acc * 16 + d as u128;
            if acc > u64::MAX as u128 {
                over = true;
            }
        }
        i = i + 1;
    }
    proof {
        assert(t.skip(2).subrange(0, end - start - 2) =~= t.skip(2));
        assert(hex_shaped(t));
    }
    if over {
        HexTok::TooBig
    } else {
        HexTok::Value(acc as u64)
    }
}

/// Copies `s[start..end)` into a fresh vector.
pub fn copy_range(s: &Vec<char>, start: usize, end: usize) -> (v: Vec<char>)
    requires
        start <= end <= s.len(),
    ensures
        v@ == s@.subrange(start as int, end as int),
{
    let mut v: Vec<char> = Vec::new();
    let mut i: usize = start;
    while i < end
        invariant
            start <= i <= end <= s.len(),
            v@ =~= s@.subrange(start as int, i as int),
        decreases end - i,
    {
        v.push(s[i]);
        proof {
            assert(v@ =~= s@.subrange(start as int, i as int + 1));
        }
        i = i + 1;
    }
    proof {
        assert(v@ =~= s@.subrange(start as int, end as int));
    }
    v
}

/// Reads the fields that follow the first hex number; exec mirror of
/// `fields_shape`.
fn read_fields(s: &Vec<char>, name: Option<Vec<char>>, h1: u64, i: usize) -> (l: Line)
    requires
        i <= s.len(),
    ensures
        l@ == fields_shape(s@, opt_view(name), h1, i as int),
{
    let p2 = find_non_ws(s, i);
    if p2 == s.len() {
        return match name {
            Some(n) => Line::Entry {
                name: Some(n),
                address: None,
                size: Some(h1),
                source: None,
            },
            None => Line::Entry { name: None, address: Some(h1), size: None, source: None },
        };
    }
    let e2 = find_token_end(s, p2);
    match parse_hex_token(s, p2, e2) {
        HexTok::TooBig => Line::Bad,
        HexTok::Value(h2) => {
            let p3 = find_non_ws(s, e2);
            if p3 == s.len() {
                Line::Entry { name, address: Some(h1), size: Some(h2), source: None }
            } else {
                let e3 = find_token_end(s, p3);
                if find_non_ws(s, e3) != s.len() {
                    Line::Bad
                } else {
                    let source = if p3 - e2 >= 8 {
                        None
                    } else {
                        Some(copy_range(s, p3, e3))
                    };
                    Line::Entry { name, address: Some(h1), size: Some(h2), source }
                }
            }
        },
        HexTok::NotHex => {
            if find_non_ws(s, e2) != s.len() {
                Line::Bad
            } else {
                let source = if p2 - i >= 8 {
                    None
                } else {
                    Some(copy_range(s, p2, e2))
                };
                Line::Entry { name, address: Some(h1), size: None, source }
            }
        },
    }
}

/// Classifies one line of the report; exec mirror of `classify`.
pub fn classify_line(s: &Vec<char>) -> (l: Line)
    ensures
        l@ == classify(s@),
{
    let a = find_non_ws(s, 0);
    if a == s.len() {
        proof {
            lemma_skip_ws_bounds(s@, 0);
        }
        return Line::Blank;
    }
    proof {
        lemma_skip_ws_bounds(s@, 0);
        assert(!is_ws(s@[a as int]));
        assert(!is_blank(s@));
        lemma_trim_end_bounds(s@);
    }
    let b = find_trim_end(s);
    proof {
        if b <= a {
            assert(is_ws(s@[a as int]));
        }
    }
    if range_eq_lit(s, a, b, "Archive member included to satisfy reference by file (symbol)") {
        return Line::Header(SectionKind::ArchiveMembers);
    }
    if range_eq_lit(s, a, b, "Discarded input sections") {
        return Line::Header(SectionKind::DiscardedInput);
    }
    if range_eq_lit(s, a, b, "Memory Configuration") {
        return Line::Header(SectionKind::MemoryConfig);
    }
    if range_eq_lit(s, a, b, "Linker script and memory map") {
        return Line::Header(SectionKind::MemoryMap);
    }
    if range_eq_lit(s, a, b, "Cross Reference Table") {
        return Line::Header(SectionKind::CrossRef);
    }
    let e0 = find_token_end(s, a);
    if range_eq_lit(s, a, e0, "/DISCARD/") {
        return Line::DirectiveDiscard;
    }
    if range_eq_lit(s, a, e0, "LOAD") || range_eq_lit(s, a, e0, "OUTPUT")
        || range_eq_lit(s, a, e0, "START") || range_eq_lit(s, a, e0, "END") {
        return Line::DirectiveOther;
    }
    if s[a] == '[' {
        return Line::Bracketed;
    }
    match parse_hex_token(s, a, e0) {
        HexTok::TooBig => Line::Bad,
        HexTok::Value(h1) => read_fields(s, None, h1, e0),
        HexTok::NotHex => {
            let p1 = find_non_ws(s, e0);
            if p1 == s.len() {
                return Line::Placeholder;
            }
            let e1 = find_token_end(s, p1);
            match parse_hex_token(s, p1, e1) {
                HexTok::NotHex => Line::Placeholder,
                HexTok::TooBig => Line::Bad,
                HexTok::Value(h1) => read_fields(s, Some(copy_range(s, a, e0)), h1, e1),
            }
        },
    }
}

} // verus!
