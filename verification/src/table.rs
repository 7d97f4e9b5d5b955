//! The section walker and symbol table builder.
//!
//! The walker consumes the report's lines top to bottom, skipping the
//! sections that carry no symbols, and routes the memory-map section's
//! entries to the builder.  The builder handles two dialects, told apart by
//! each entry's shape.  In the explicit-size dialect the builder keeps at
//! most one pending symbol: every address-bearing entry finalizes the
//! pending symbol, giving it the address distance as its size, and its own
//! source token (if it names a real symbol) becomes the new pending symbol;
//! the file's last pending symbol is dropped.  In the address-only dialect
//! an entry yields an immediate symbol with its size left unset, to be
//! derived later from the sorted addresses.  Entries whose name holds the
//! fill marker add their declared size to the padding accumulator.  A
//! discard directive suppresses all following entries of the section, and
//! addresses that go backwards are a semantic error.

use vstd::prelude::*;

use crate::grammar::{
    classify, classify_line, opt_view, split_lines, split_text, Line, LineShape, SectionKind,
};
use crate::scan::{range_contains_char, range_contains_lit, seq_contains_char, seq_contains_seq};

verus! {

/// The marker that distinguishes alignment fill entries.
pub open spec fn fill_marker() -> Seq<char> {
    "*fill*"@
}

/// One program symbol extracted from the report.
#[derive(Debug)]
pub struct Symbol {
    pub address: u64,
    pub size: u64,
    pub name: Vec<char>,
}

/// Specification-level symbol.
pub struct SymbolV {
    pub address: u64,
    pub size: u64,
    pub name: Seq<char>,
}

impl View for Symbol {
    type V = SymbolV;

    open spec fn view(&self) -> SymbolV {
        SymbolV { address: self.address, size: self.size, name: self.name@ }
    }
}

/// View of a symbol vector.
pub open spec fn symbols_view(v: Seq<Symbol>) -> Seq<SymbolV> {
    v.map_values(|s: Symbol| s@)
}

/// The parsed table: finalized symbols in finalization order, and the
/// accumulated padding.
#[derive(Debug)]
pub struct MapFile {
    pub symbols: Vec<Symbol>,
    pub padding: u64,
}

/// Specification-level table.
pub struct TableV {
    pub symbols: Seq<SymbolV>,
    pub padding: u64,
}

impl View for MapFile {
    type V = TableV;

    open spec fn view(&self) -> TableV {
        TableV { symbols: symbols_view(self.symbols@), padding: self.padding }
    }
}

/// Why a parse failed.
#[derive(Clone, Copy, PartialEq, Eq, Structural, Debug)]
pub enum ParseErrorKind {
    /// Top-level content that is not one of the recognized sections.
    UnknownSection,
    /// A memory-map line that matches no shape of the grammar.
    MalformedLine,
    /// A named, addressed map entry without a declared size.
    MissingSize,
    /// Addresses that go backwards in finalization order.
    OutOfOrderAddress,
    /// The padding accumulator left the 64-bit range.
    PaddingOverflow,
}

/// A parse failure, with the 1-based number of the offending line.
#[derive(Debug)]
pub struct ParseError {
    pub kind: ParseErrorKind,
    pub line: usize,
}

/// Specification-level parse failure.
pub struct ErrV {
    pub kind: ParseErrorKind,
    pub line: int,
}

impl View for ParseError {
    type V = ErrV;

    open spec fn view(&self) -> ErrV {
        ErrV { kind: self.kind, line: self.line as int }
    }
}

/// Where the walker stands in the report.
#[derive(Clone, Copy, PartialEq, Eq, Structural, Debug)]
pub enum Region {
    /// Before the first section header.
    Preamble,
    /// Inside a section that carries no symbols.
    Skipping,
    /// Inside the memory-map section.
    InMap,
}

/// A symbol awaiting its size.
pub struct Pending {
    pub address: u64,
    pub name: Vec<char>,
}

/// Specification-level pending symbol.
pub struct PendingV {
    pub address: u64,
    pub name: Seq<char>,
}

/// The walker's whole state between lines.
pub struct Walker {
    pub region: Region,
    pub discarding: bool,
    pub pending: Option<Pending>,
    pub symbols: Vec<Symbol>,
    pub padding: u64,
}

/// Specification-level walker state.
pub struct StateV {
    pub region: Region,
    pub discarding: bool,
    pub pending: Option<PendingV>,
    pub symbols: Seq<SymbolV>,
    pub padding: u64,
}

/// View of an optional pending symbol.
pub open spec fn pending_view(p: Option<Pending>) -> Option<PendingV> {
    match p {
        Some(q) => Some(PendingV { address: q.address, name: q.name@ }),
        None => None,
    }
}

impl View for Walker {
    type V = StateV;

    open spec fn view(&self) -> StateV {
        StateV {
            region: self.region,
            discarding: self.discarding,
            pending: pending_view(self.pending),
            symbols: symbols_view(self.symbols@),
            padding: self.padding,
        }
    }
}

/// The state before any line has been read.
pub open spec fn init_state() -> StateV {
    StateV {
        region: Region::Preamble,
        discarding: false,
        pending: None,
        symbols: Seq::empty(),
        padding: 0,
    }
}

/// The source token when it names a real symbol: present, not a synthetic
/// stub (those were already dropped by the grammar), and not an object file
/// attributed by path.
pub open spec fn real_source(source: Option<Seq<char>>) -> Option<Seq<char>> {
    match source {
        Some(src) => if seq_contains_char(src, '/') {
            None
        } else {
            Some(src)
        },
        None => None,
    }
}

/// The pending symbol an explicit-size-dialect entry leaves behind.
pub open spec fn new_pending(addr: u64, source: Option<Seq<char>>) -> Option<PendingV> {
    match real_source(source) {
        Some(src) => Some(PendingV { address: addr, name: src }),
        None => None,
    }
}

/// The padding an entry contributes: its declared size, when its name holds
/// the fill marker.
pub open spec fn entry_fill(name: Option<Seq<char>>, size: Option<u64>) -> int {
    match (name, size) {
        (Some(n), Some(sz)) => if seq_contains_seq(n, fill_marker()) {
            sz as int
        } else {
            0
        },
        _ => 0,
    }
}

/// The table once the pending symbol is finalized at the next seen address,
/// or the out-of-order error that finalizing there would take.
pub open spec fn finalize_pending(
    symbols: Seq<SymbolV>,
    pending: Option<PendingV>,
    addr: u64,
) -> Result<Seq<SymbolV>, ParseErrorKind> {
    match pending {
        None => Ok(symbols),
        Some(p) => if addr < p.address {
            Err(ParseErrorKind::OutOfOrderAddress)
        } else if symbols.len() > 0 && p.address < symbols.last().address {
            Err(ParseErrorKind::OutOfOrderAddress)
        } else {
            Ok(
                symbols.push(
                    SymbolV { address: p.address, size: (addr - p.address) as u64, name: p.name },
                ),
            )
        },
    }
}

/// One map entry against the builder state.
///
/// A named, addressed entry must carry a size.  An entry's declared size
/// feeds the padding accumulator when its name holds the fill marker.  An
/// address-bearing entry first finalizes the pending symbol at its address.
/// An entry carrying only an address and a source (the address-only
/// dialect) then yields an immediate symbol with its size left unset for
/// the size deriver; any other address-bearing entry (the explicit-size
/// dialect) leaves its real source as the new pending symbol.
pub open spec fn entry_step(
    st: StateV,
    name: Option<Seq<char>>,
    address: Option<u64>,
    size: Option<u64>,
    source: Option<Seq<char>>,
) -> Result<StateV, ParseErrorKind> {
    if name is Some && address is Some && size is None {
        Err(ParseErrorKind::MissingSize)
    } else if st.padding + entry_fill(name, size) > u64::MAX {
        Err(ParseErrorKind::PaddingOverflow)
    } else {
        let pad = (st.padding + entry_fill(name, size)) as u64;
        match address {
            None => Ok(
                StateV {
                    region: st.region,
                    discarding: st.discarding,
                    pending: st.pending,
                    symbols: st.symbols,
                    padding: pad,
                },
            ),
            Some(addr) => match finalize_pending(st.symbols, st.pending, addr) {
                Err(k) => Err(k),
                Ok(syms) => if name is None && size is None {
                    match real_source(source) {
                        Some(src) => if syms.len() > 0 && addr < syms.last().address {
                            Err(ParseErrorKind::OutOfOrderAddress)
                        } else {
                            Ok(
                                StateV {
                                    region: st.region,
                                    discarding: st.discarding,
                                    pending: None,
                                    symbols: syms.push(
                                        SymbolV { address: addr, size: 0, name: src },
                                    ),
                                    padding: pad,
                                },
                            )
                        },
                        None => Ok(
                            StateV {
                                region: st.region,
                                discarding: st.discarding,
                                pending: None,
                                symbols: syms,
                                padding: pad,
                            },
                        ),
                    }
                } else {
                    Ok(
                        StateV {
                            region: st.region,
                            discarding: st.discarding,
                            pending: new_pending(addr, source),
                            symbols: syms,
                            padding: pad,
                        },
                    )
                },
            },
        }
    }
}

/// A section header: the walker enters the memory-map section (with the
/// discarding flag cleared) or starts skipping; the builder state carries
/// over.
pub open spec fn header_step(st: StateV, section: SectionKind) -> StateV {
    StateV {
        region: if section == SectionKind::MemoryMap {
            Region::InMap
        } else {
            Region::Skipping
        },
        discarding: false,
        pending: st.pending,
        symbols: st.symbols,
        padding: st.padding,
    }
}

/// One line against the walker state.
pub open spec fn line_step(st: StateV, line: Seq<char>) -> Result<StateV, ParseErrorKind> {
    let sh = classify(line);
    match sh {
        LineShape::Blank => Ok(st),
        LineShape::Header { section } => Ok(header_step(st, section)),
        _ => match st.region {
            Region::Preamble => Err(ParseErrorKind::UnknownSection),
            Region::Skipping => Ok(st),
            Region::InMap => match sh {
                LineShape::DirectiveDiscard => Ok(
                    StateV {
                        region: st.region,
                        discarding: true,
                        pending: st.pending,
                        symbols: st.symbols,
                        padding: st.padding,
                    },
                ),
                LineShape::DirectiveOther => Ok(st),
                LineShape::Bracketed => Ok(st),
                LineShape::Placeholder => Ok(st),
                LineShape::Bad => Err(ParseErrorKind::MalformedLine),
                LineShape::Entry { name, address, size, source } => if st.discarding {
                    Ok(st)
                } else {
                    entry_step(st, name, address, size, source)
                },
                _ => Ok(st),
            },
        },
    }
}

/// The walker state after the first `n` lines; an error carries the
/// 1-based number of the line that caused it.
pub open spec fn run_to(lines: Seq<Seq<char>>, n: int) -> Result<StateV, ErrV>
    decreases n,
{
    if n <= 0 {
        Ok(init_state())
    } else {
        match run_to(lines, n - 1) {
            Err(e) => Err(e),
            Ok(st) => match line_step(st, lines[n - 1]) {
                Ok(st2) => Ok(st2),
                Err(k) => Err(ErrV { kind: k, line: n }),
            },
        }
    }
}

/// What parsing a whole report text yields: the finalized table (the last
/// pending symbol, never finalized, is dropped) or the first failure.
pub open spec fn parse_result(text: Seq<char>) -> Result<TableV, ErrV> {
    let lines = split_lines(text);
    match run_to(lines, lines.len() as int) {
        Ok(st) => Ok(TableV { symbols: st.symbols, padding: st.padding }),
        Err(e) => Err(e),
    }
}

/// Applies one classified line to the walker; exec mirror of `line_step`.
fn walk_line(w: &mut Walker, line: &Vec<char>) -> (r: Result<(), ParseErrorKind>)
    ensures
        match r {
            Ok(_) => line_step(old(w)@, line@) == Ok::<StateV, ParseErrorKind>(final(w)@),
            Err(k) => line_step(old(w)@, line@) == Err::<StateV, ParseErrorKind>(k),
        },
{
    let l = classify_line(line);
    match l {
        Line::Blank => Ok(()),
        Line::Header(section) => {
            w.region = if section == SectionKind::MemoryMap {
                Region::InMap
            } else {
                Region::Skipping
            };
            w.discarding = false;
            Ok(())
        },
        Line::Bad => match w.region {
            Region::Preamble => Err(ParseErrorKind::UnknownSection),
            Region::Skipping => Ok(()),
            Region::InMap => Err(ParseErrorKind::MalformedLine),
        },
        Line::DirectiveDiscard => match w.region {
            Region::Preamble => Err(ParseErrorKind::UnknownSection),
            Region::Skipping => Ok(()),
            Region::InMap => {
                w.discarding = true;
                Ok(())
            },
        },
        Line::DirectiveOther | Line::Bracketed | Line::Placeholder => match w.region {
            Region::Preamble => Err(ParseErrorKind::UnknownSection),
            Region::Skipping => Ok(()),
            Region::InMap => Ok(()),
        },
        Line::Entry { name, address, size, source } => match w.region {
            Region::Preamble => Err(ParseErrorKind::UnknownSection),
            Region::Skipping => Ok(()),
            Region::InMap => {
                if w.discarding {
                    Ok(())
                } else {
                    apply_entry(w, name, address, size, source)
                }
            },
        },
    }
}

/// Applies one non-discarded map entry to the builder; exec mirror of
/// `entry_step`.
fn apply_entry(
    w: &mut Walker,
    name: Option<Vec<char>>,
    address: Option<u64>,
    size: Option<u64>,
    source: Option<Vec<char>>,
) -> (r: Result<(), ParseErrorKind>)
    ensures
        match r {
            Ok(_) => entry_step(old(w)@, opt_view(name), address, size, opt_view(source)) == Ok::<
                StateV,
                ParseErrorKind,
            >(final(w)@),
            Err(k) => entry_step(old(w)@, opt_view(name), address, size, opt_view(source)) == Err::<
                StateV,
                ParseErrorKind,
            >(k),
        },
{
    if name.is_some() && address.is_some() && size.is_none() {
        return Err(ParseErrorKind::MissingSize);
    }
    match (&name, &size) {
        (Some(n), Some(sz)) => {
            if range_contains_lit(n, 0, n.len(), "*fill*") {
                proof {
                    assert(n@.subrange(0, n@.len() as int) =~= n@);
                }
                if *sz > u64::MAX - w.padding {
                    return Err(ParseErrorKind::PaddingOverflow);
                }
                w.padding = w.padding + *sz;
            } else {
                proof {
                    assert(n@.subrange(0, n@.len() as int) =~= n@);
                }
            }
        },
        _ => {},
    }
    let addr = match address {
        None => {
            return Ok(());
        },
        Some(a) => a,
    };
    match w.pending.take() {
        None => {},
        Some(p) => {
            if addr < p.address {
                return Err(ParseErrorKind::OutOfOrderAddress);
            }
            if w.symbols.len() > 0 && p.address < w.symbols[w.symbols.len() - 1].address {
                proof {
                    assert(old(w)@.symbols.last() == w.symbols@[w.symbols@.len() - 1]@);
                }
                return Err(ParseErrorKind::OutOfOrderAddress);
            }
            proof {
                if old(w)@.symbols.len() > 0 {
                    assert(old(w)@.symbols.last() == w.symbols@[w.symbols@.len() - 1]@);
                }
            }
            let ghost prev = symbols_view(w.symbols@);
            w.symbols.push(Symbol { address: p.address, size: addr - p.address, name: p.name });
            proof {
                assert(symbols_view(w.symbols@) =~= prev.push(w.symbols@.last()@));
            }
        },
    }
    if name.is_none() && size.is_none() {
        match source {
            None => {},
            Some(src) => {
                proof {
                    assert(src@.subrange(0, src@.len() as int) =~= src@);
                }
                if !range_contains_char(&src, 0, src.len(), '/') {
                    if w.symbols.len() > 0 && addr < w.symbols[w.symbols.len() - 1].address {
                        proof {
                            assert(symbols_view(w.symbols@).last() == w.symbols@[w.symbols@.len()
                                - 1]@);
                        }
                        return Err(ParseErrorKind::OutOfOrderAddress);
                    }
                    proof {
                        if w.symbols@.len() > 0 {
                            assert(symbols_view(w.symbols@).last() == w.symbols@[w.symbols@.len()
                                - 1]@);
                        }
                    }
                    let ghost prev = symbols_view(w.symbols@);
                    w.symbols.push(Symbol { address: addr, size: 0, name: src });
                    proof {
                        assert(symbols_view(w.symbols@) =~= prev.push(w.symbols@.last()@));
                    }
                }
            },
        }
    } else {
        match source {
            None => {},
            Some(src) => {
                proof {
                    assert(src@.subrange(0, src@.len() as int) =~= src@);
                }
                if !range_contains_char(&src, 0, src.len(), '/') {
                    w.pending = Some(Pending { address: addr, name: src });
                }
            },
        }
    }
    Ok(())
}

/// Interprets a whole report, handed over as its raw text.
///
/// On success the table holds the finalized symbols in finalization order
/// and the accumulated padding; on failure, the kind of the first error and
/// the 1-based number of the line it stands on.
pub fn parse_map_file(text: &Vec<char>) -> (r: Result<MapFile, ParseError>)
    ensures
        match r {
            Ok(t) => parse_result(text@) == Ok::<TableV, ErrV>(t@),
            Err(e) => parse_result(text@) == Err::<TableV, ErrV>(e@),
        },
{
    let lines = split_text(text);
    let ghost lv = lines.deep_view();
    let mut w = Walker {
        region: Region::Preamble,
        discarding: false,
        pending: None,
        symbols: Vec::new(),
        padding: 0,
    };
    proof {
        assert(symbols_view(w.symbols@) =~= Seq::<SymbolV>::empty());
    }
    let mut i: usize = 0;
    while i < lines.len()
        invariant
            i <= lines.len(),
            lv == lines.deep_view(),
            lv == split_lines(text@),
            lv.len() == lines@.len(),
            run_to(lv, i as int) == Ok::<StateV, ErrV>(w@),
        decreases lines.len() - i,
    {
        proof {
            assert(lines@[i as int].deep_view() =~= lines@[i as int]@);
            assert(lv[i as int] == lines@[i as int]@);
        }
        let line = &lines[i];
        match walk_line(&mut w, line) {
            Ok(_) => {},
            Err(k) => {
                proof {
                    assert(run_to(lv, i + 1) == Err::<StateV, ErrV>(
                        ErrV { kind: k, line: i + 1 },
                    ));
                    assert(run_to(lv, lv.len() as int) == Err::<StateV, ErrV>(
                        ErrV { kind: k, line: i + 1 },
                    )) by {
                        lemma_run_to_error(lv, i + 1, lv.len() as int);
                    }
                }
                return Err(ParseError { kind: k, line: i + 1 });
            },
        }
        i = i + 1;
    }
    Ok(MapFile { symbols: w.symbols, padding: w.padding })
}

/// An error stays: once `run_to` fails at `n`, it fails the same way at
/// every later prefix.
proof fn lemma_run_to_error(lines: Seq<Seq<char>>, n: int, m: int)
    requires
        0 <= n <= m,
        run_to(lines, n) is Err,
    ensures
        run_to(lines, m) == run_to(lines, n),
    decreases m - n,
{
    if m > n {
        lemma_run_to_error(lines, n, m - 1);
    }
}

/// Addresses are non-decreasing in finalization order: in every state the
/// walker can reach, the finalized symbols of the table are sorted by
/// address, because finalizing a symbol out of address order is a semantic
/// error, never tolerated.
pub proof fn lemma_addresses_monotonic(lines: Seq<Seq<char>>, n: int)
    requires
        run_to(lines, n) is Ok,
    ensures
        forall|i: int, j: int|
            0 <= i <= j < run_to(lines, n)->Ok_0.symbols.len() ==> run_to(
                lines,
                n,
            )->Ok_0.symbols[i].address <= run_to(lines, n)->Ok_0.symbols[j].address,
    decreases n,
{
    if n > 0 {
        lemma_addresses_monotonic(lines, n - 1);
    }
}

/// Addresses in any successfully parsed table are non-decreasing in
/// finalization order; a report that would violate this never parses, it
/// fails with a semantic error instead.
pub proof fn lemma_table_addresses_monotonic(text: Seq<char>)
    requires
        parse_result(text) is Ok,
    ensures
        forall|i: int, j: int|
            0 <= i <= j < parse_result(text)->Ok_0.symbols.len() ==> parse_result(
                text,
            )->Ok_0.symbols[i].address <= parse_result(text)->Ok_0.symbols[j].address,
{
    lemma_addresses_monotonic(split_lines(text), split_lines(text).len() as int);
}

/// What one line adds to the padding accumulator: the declared size of a
/// non-discarded memory-map entry whose name holds the fill marker, and
/// nothing for any other line.
pub open spec fn fill_contribution(st: StateV, line: Seq<char>) -> int {
    match classify(line) {
        LineShape::Entry { name, address, size, source } => if st.region == Region::InMap
            && !st.discarding {
            entry_fill(name, size)
        } else {
            0
        },
        _ => 0,
    }
}

/// The sum of the fill contributions of the first `n` lines.
pub open spec fn fill_sum(lines: Seq<Seq<char>>, n: int) -> int
    decreases n,
{
    if n <= 0 {
        0
    } else {
        fill_sum(lines, n - 1) + match run_to(lines, n - 1) {
            Ok(st) => fill_contribution(st, lines[n - 1]),
            Err(_) => 0,
        }
    }
}

/// The padding accumulator equals the sum of the declared sizes of the
/// map entries whose name holds the fill marker; nothing else contributes.
pub proof fn lemma_padding_is_fill_sum(lines: Seq<Seq<char>>, n: int)
    requires
        run_to(lines, n) is Ok,
    ensures
        run_to(lines, n)->Ok_0.padding == fill_sum(lines, n),
    decreases n,
{
    if n > 0 {
        lemma_padding_is_fill_sum(lines, n - 1);
    }
}

/// The padding of any successfully parsed table equals the sum of the fill
/// contributions of the report's lines: the declared sizes of the map
/// entries whose name holds the fill marker, and nothing else.
pub proof fn lemma_table_padding_is_fill_sum(text: Seq<char>)
    requires
        parse_result(text) is Ok,
    ensures
        parse_result(text)->Ok_0.padding == fill_sum(
            split_lines(text),
            split_lines(text).len() as int,
        ),
{
    lemma_padding_is_fill_sum(split_lines(text), split_lines(text).len() as int);
}

} // verus!
