use mapdiff::table::{parse_map_file, MapFile, ParseError, ParseErrorKind};

fn chars(s: &str) -> Vec<char> {
    s.chars().collect()
}

fn parse(s: &str) -> Result<MapFile, ParseError> {
    parse_map_file(&chars(s))
}

fn name_of(v: &[char]) -> String {
    v.iter().collect()
}

#[test]
fn scenario_baseline_sizes() {
    let text = "Linker script and memory map\n\
                \n\
                0x00001000   symbol_a\n\
                0x00001010   symbol_b\n\
                0x00001030   symbol_c\n";
    let mut table = parse(text).unwrap();
    assert_eq!(table.symbols.len(), 3);
    let sizes = table.compute_symbol_sizes();
    assert_eq!(sizes.get(&chars("symbol_a")), Some(16));
    assert_eq!(sizes.get(&chars("symbol_b")), Some(32));
    assert_eq!(sizes.get(&chars("symbol_c")), None);
}

#[test]
fn scenario_diff_rows() {
    let baseline = "Linker script and memory map\n\
                    0x00001000   symbol_a\n\
                    0x00001010   symbol_b\n\
                    0x00001030   symbol_c\n";
    let candidate = "Linker script and memory map\n\
                     0x00001000   symbol_a\n\
                     0x00001020   symbol_b\n\
                     0x00001030   symbol_c\n";
    let mut a = parse(baseline).unwrap();
    let mut b = parse(candidate).unwrap();
    let a_sizes = a.compute_symbol_sizes();
    let b_sizes = b.compute_symbol_sizes();
    assert_eq!(b_sizes.get(&chars("symbol_a")), Some(32));
    assert_eq!(b_sizes.get(&chars("symbol_b")), Some(16));
    let report = mapdiff::diff::diff_size_maps(&a_sizes, &b_sizes);
    assert_eq!(report.rows.len(), 2);
    assert_eq!(name_of(&report.rows[0].name), "symbol_b");
    assert_eq!(report.rows[0].old_size, 32);
    assert_eq!(report.rows[0].new_size, 16);
    assert_eq!(report.rows[0].delta, -16);
    assert_eq!(name_of(&report.rows[1].name), "symbol_a");
    assert_eq!(report.rows[1].old_size, 16);
    assert_eq!(report.rows[1].new_size, 32);
    assert_eq!(report.rows[1].delta, 16);
}

#[test]
fn padding_accumulates_fill_sizes_only() {
    let text = "Linker script and memory map\n\
                .text           0x0000000000001000     0x200\n\
                 *fill*         0x0000000000001010      0x10\n\
                 *fill*   0x20\n";
    let table = parse(text).unwrap();
    assert_eq!(table.padding, 0x30);
    assert_eq!(table.symbols.len(), 0);
}

#[test]
fn empty_input_gives_empty_table() {
    let table = parse("").unwrap();
    assert_eq!(table.symbols.len(), 0);
    assert_eq!(table.padding, 0);
}

#[test]
fn out_of_order_address_is_semantic_error() {
    let text = "Linker script and memory map\n\
                0x00002000   sym_a\n\
                0x00001000   sym_b\n";
    let err = parse(text).unwrap_err();
    assert_eq!(err.kind, ParseErrorKind::OutOfOrderAddress);
    assert_eq!(err.line, 3);
}

#[test]
fn out_of_order_pending_is_semantic_error() {
    let text = "Linker script and memory map\n\
                .text  0x0000000000002000  0x10  func_high\n\
                .data  0x0000000000001000  0x10\n";
    let err = parse(text).unwrap_err();
    assert_eq!(err.kind, ParseErrorKind::OutOfOrderAddress);
    assert_eq!(err.line, 3);
}

#[test]
fn unknown_top_level_section_is_error() {
    let err = parse("No such section header\n").unwrap_err();
    assert_eq!(err.kind, ParseErrorKind::UnknownSection);
    assert_eq!(err.line, 1);
}

#[test]
fn named_addressed_entry_without_size_is_error() {
    let text = "Linker script and memory map\n\
                .data  0x0000000000002000 obj_thing\n";
    let err = parse(text).unwrap_err();
    assert_eq!(err.kind, ParseErrorKind::MissingSize);
    assert_eq!(err.line, 2);
}

#[test]
fn trailing_text_after_source_is_grammar_error() {
    let text = "Linker script and memory map\n\
                0x00001000   src extra\n";
    let err = parse(text).unwrap_err();
    assert_eq!(err.kind, ParseErrorKind::MalformedLine);
    assert_eq!(err.line, 2);
}

#[test]
fn oversized_hex_number_is_grammar_error() {
    let text = "Linker script and memory map\n\
                0x10000000000000000   sym\n";
    let err = parse(text).unwrap_err();
    assert_eq!(err.kind, ParseErrorKind::MalformedLine);
    assert_eq!(err.line, 2);
}

#[test]
fn padding_overflow_is_semantic_error() {
    let text = "Linker script and memory map\n\
                 *fill*   0xffffffffffffffff\n\
                 *fill*   0x1\n";
    let err = parse(text).unwrap_err();
    assert_eq!(err.kind, ParseErrorKind::PaddingOverflow);
    assert_eq!(err.line, 3);
}

#[test]
fn discard_directive_suppresses_rest_of_section() {
    let text = "Linker script and memory map\n\
                0x00001000   sym_a\n\
                /DISCARD/\n\
                0x00000500   gone_sym\n\
                0x00002000   sym_b\n";
    let table = parse(text).unwrap();
    assert_eq!(table.symbols.len(), 1);
    assert_eq!(name_of(&table.symbols[0].name), "sym_a");
}

#[test]
fn new_map_section_resets_discarding() {
    let text = "Linker script and memory map\n\
                /DISCARD/\n\
                0x00000500   gone_sym\n\
                Linker script and memory map\n\
                0x00001000   sym_a\n";
    let table = parse(text).unwrap();
    assert_eq!(table.symbols.len(), 1);
    assert_eq!(name_of(&table.symbols[0].name), "sym_a");
}

#[test]
fn deeply_indented_source_is_synthetic_stub() {
    let text = "Linker script and memory map\n\
                0x00001000           stub_name\n";
    let table = parse(text).unwrap();
    assert_eq!(table.symbols.len(), 0);
}

#[test]
fn path_source_is_not_a_symbol() {
    let text = "Linker script and memory map\n\
                0x00001000   obj/file.o\n";
    let table = parse(text).unwrap();
    assert_eq!(table.symbols.len(), 0);
}

#[test]
fn irrelevant_sections_are_skipped() {
    let text = "Memory Configuration\n\
                anything at all goes here !!!\n\
                Linker script and memory map\n\
                0x00001000   sym_a\n\
                0x00001010   sym_b\n\
                Cross Reference Table\n\
                more arbitrary content\n";
    let mut table = parse(text).unwrap();
    assert_eq!(table.symbols.len(), 2);
    let sizes = table.compute_symbol_sizes();
    assert_eq!(sizes.get(&chars("sym_a")), Some(16));
}

#[test]
fn explicit_dialect_sizes_come_from_address_deltas() {
    let text = "Linker script and memory map\n\
                .text  0x0000000000001000  0x100  func_one\n\
                .text  0x0000000000001040  0x100  func_two\n\
                .fini  0x0000000000001100  0x0\n";
    let table = parse(text).unwrap();
    assert_eq!(table.symbols.len(), 2);
    let sizes = table.size_map();
    assert_eq!(sizes.get(&chars("func_one")), Some(0x40));
    assert_eq!(sizes.get(&chars("func_two")), Some(0xc0));
}

#[test]
fn duplicate_names_last_write_wins() {
    let text = "Linker script and memory map\n\
                0x00001000   dup\n\
                0x00001010   dup\n\
                0x00001030   dup2\n";
    let mut table = parse(text).unwrap();
    let sizes = table.compute_symbol_sizes();
    assert_eq!(sizes.get(&chars("dup")), Some(32));
    assert_eq!(sizes.get(&chars("dup2")), None);
}

#[test]
fn glob_placeholders_and_bracketed_entries_are_ignored() {
    let text = "Linker script and memory map\n\
                 *(.text*)\n\
                [!provide]\n\
                LOAD obj_archive\n\
                0x00001000   sym_a\n\
                0x00001010   sym_b\n";
    let table = parse(text).unwrap();
    assert_eq!(table.symbols.len(), 2);
}

#[test]
fn crlf_line_endings_are_accepted() {
    let text = "Linker script and memory map\r\n\
                0x00001000   sym_a\r\n\
                0x00001010   sym_b\r\n";
    let mut table = parse(text).unwrap();
    let sizes = table.compute_symbol_sizes();
    assert_eq!(sizes.get(&chars("sym_a")), Some(16));
}

#[test]
fn mixed_dialects_share_one_table() {
    let text = "Linker script and memory map\n\
                .text  0x0000000000001000  0x100  funcp\n\
                0x00001040   funca\n\
                0x00001080   funcb\n";
    let mut table = parse(text).unwrap();
    assert_eq!(table.symbols.len(), 3);
    assert_eq!(name_of(&table.symbols[0].name), "funcp");
    assert_eq!(table.symbols[0].size, 0x40);
    let sizes = table.compute_symbol_sizes();
    assert_eq!(sizes.get(&chars("funcp")), Some(0x40));
    assert_eq!(sizes.get(&chars("funca")), Some(0x40));
    assert_eq!(sizes.get(&chars("funcb")), None);
}

#[test]
fn header_with_trailing_whitespace_is_recognized() {
    let text = "Linker script and memory map   \n\
                0x00001000   sym_a\n";
    let table = parse(text).unwrap();
    assert_eq!(table.symbols.len(), 1);
}

#[test]
fn addresses_nondecreasing_in_table() {
    let text = "Linker script and memory map\n\
                0x00001000   a1\n\
                0x00001000   a2\n\
                0x00001010   a3\n";
    let table = parse(text).unwrap();
    for w in table.symbols.windows(2) {
        assert!(w[0].address <= w[1].address);
    }
}
