use objdiff_core::diff::DiffObjConfig;
use objdiff_core::obj::read::parse;
use objdiff_core::obj::ObjInfo;
use vostok_pdb_parser::rich_objdiff::{
    can_compare, checked_diff, diff, find_symbol, render_diff, render_row, Head, InsRow,
    ObjdiffResult, Percent, RelocPlace, RowKind, SectionKind, SectionLayout, Side, SymbolPlace, HUNDRED,
};

/// A COFF object with one code section and its functions, each told by name and offset.
fn object(code: &[u8], functions: &[(&[u8; 8], u32)]) -> ObjInfo {
    let mut b: Vec<u8> = Vec::new();
    let symbols_at = 20 + 40 + code.len() as u32;
    b.extend_from_slice(&0x14cu16.to_le_bytes());
    b.extend_from_slice(&1u16.to_le_bytes());
    b.extend_from_slice(&0u32.to_le_bytes());
    b.extend_from_slice(&symbols_at.to_le_bytes());
    b.extend_from_slice(&(functions.len() as u32).to_le_bytes());
    b.extend_from_slice(&0u32.to_le_bytes());
    b.extend_from_slice(b".text\0\0\0");
    b.extend_from_slice(&[0; 8]);
    b.extend_from_slice(&(code.len() as u32).to_le_bytes());
    b.extend_from_slice(&60u32.to_le_bytes());
    b.extend_from_slice(&[0; 12]);
    b.extend_from_slice(&0x6000_0020u32.to_le_bytes());
    b.extend_from_slice(code);
    for (name, offset) in functions {
        b.extend_from_slice(*name);
        b.extend_from_slice(&offset.to_le_bytes());
        b.extend_from_slice(&1i16.to_le_bytes());
        b.extend_from_slice(&0x20u16.to_le_bytes());
        b.push(2);
        b.push(0);
    }
    b.extend_from_slice(&4u32.to_le_bytes());
    match parse(&b, &DiffObjConfig::default()) {
        Ok(obj) => obj,
        Err(e) => panic!("{e:#}"),
    }
}

fn compared(base: &[u8], target: &[u8]) -> ObjdiffResult {
    let r = diff(&object(base, &[(b"_f\0\0\0\0\0\0", 0)]), &object(target, &[(b"_f\0\0\0\0\0\0", 0)]), "_f");
    match r {
        Ok(Some(r)) => r,
        Ok(None) => panic!("both have the function"),
        Err(e) => panic!("{}", e.message),
    }
}

#[test]
fn equal_functions_match() {
    let r = compared(&[0x55, 0xc3], &[0x55, 0xc3]);
    assert_eq!(f32::from_bits(r.match_percent), 100.0);
    assert_eq!(r.match_percent, HUNDRED);
    assert_eq!(r.listing, "; objdiff match 100.00%  _f\n  push ebp\n  ret\n");
}

#[test]
fn mismatches_show_both_sides() {
    let r = compared(&[0x55, 0x90, 0xc3], &[0x56, 0x90, 0xc3]);
    assert_eq!(
        r.listing,
        "; objdiff match 66.67%  _f\n\
         ~ push ebp                       -> push esi\n  nop\n  ret\n"
    );
    let r = compared(&[0x90, 0xc3], &[0x55, 0xc3]);
    assert_eq!(f32::from_bits(r.match_percent), 50.0);
    assert_eq!(
        r.listing,
        "; objdiff match 50.00%  _f\n\
         ~ nop                            -> push ebp\n  ret\n"
    );
}

#[test]
fn instructions_of_one_side_are_marked() {
    assert_eq!(
        compared(&[0xc3], &[0x90, 0xc3]).listing,
        "; objdiff match 50.00%  _f\n+ nop\n  ret\n"
    );
    assert_eq!(
        compared(&[0x90, 0xc3], &[0xc3]).listing,
        "; objdiff match 50.00%  _f\n- nop\n  ret\n"
    );
}

#[test]
fn a_function_that_either_object_lacks_gives_nothing() {
    let f = object(&[0xc3], &[(b"_f\0\0\0\0\0\0", 0)]);
    let g = object(&[0xc3], &[(b"_g\0\0\0\0\0\0", 0)]);
    assert!(matches!(diff(&f, &g, "_f"), Ok(None)));
    assert!(matches!(diff(&f, &g, "_g"), Ok(None)));
    assert!(matches!(diff(&f, &f, "_f"), Ok(Some(_))));
}

#[test]
fn the_function_is_picked_by_name() {
    let functions: [(&[u8; 8], u32); 2] = [(b"_f\0\0\0\0\0\0", 0), (b"_g\0\0\0\0\0\0", 1)];
    let a = object(&[0xc3, 0x90, 0xc3], &functions);
    match diff(&a, &a, "_g") {
        Ok(Some(r)) => {
            assert_eq!(r.listing, "; objdiff match 100.00%  _g\n  nop\n  ret\n");
        }
        _ => panic!("the function is there"),
    }
}

#[test]
fn objects_that_do_not_fit_are_not_compared() {
    let good = object(&[0xc3], &[(b"_f\0\0\0\0\0\0", 0)]);
    let mut bad = object(&[0xc3], &[(b"_f\0\0\0\0\0\0", 0)]);
    assert!(matches!(checked_diff(&good, &bad, "_f"), Some(Ok(Some(_)))));
    bad.sections[0].symbols[0].size = 2;
    assert!(checked_diff(&good, &bad, "_f").is_none());
    assert!(checked_diff(&bad, &good, "_f").is_none());
}

#[test]
fn an_error_of_the_comparison_is_handed_on() {
    // A relocation on an instruction that has no operand for it.
    let with_reloc = || {
        let mut o = object(&[0x90, 0xc3], &[(b"_f\0\0\0\0\0\0", 0)]);
        let target = o.sections[0].symbols[0].clone();
        o.sections[0].relocations.push(objdiff_core::obj::ObjReloc {
            flags: object::RelocationFlags::Coff { typ: 6 },
            address: 0,
            target,
            addend: 0,
        });
        o
    };
    match checked_diff(&with_reloc(), &with_reloc(), "_f") {
        Some(Err(e)) => {
            assert_eq!(e.message, "x86: Failed to find operand for Absolute relocation");
        }
        _ => panic!("the relocation has no place"),
    }
}

fn layout(kind: SectionKind, name: &str, symbol: SymbolPlace) -> SectionLayout {
    SectionLayout {
        name: name.to_string(),
        kind,
        size: 4,
        data_len: 4,
        symbols: vec![symbol],
        relocations: vec![],
    }
}

fn place(name: &str, address: u64, section_address: u64, size: u64) -> SymbolPlace {
    SymbolPlace { name: name.to_string(), address, section_address, size }
}

fn reloc(name: &str, address: u64, addend: i64) -> RelocPlace {
    RelocPlace { target: place(name, address, 0, 0), addend }
}

#[test]
fn code_must_fit_its_bytes() {
    let fits = |s: SectionLayout| can_compare(&vec![s], &vec![]);
    assert!(fits(layout(SectionKind::Code, ".text", place("f", 0, 0, 4))));
    assert!(!fits(layout(SectionKind::Code, ".text", place("f", 0, 1, 4))));
    assert!(!fits(layout(SectionKind::Code, ".text", place("f", u64::MAX, 0, 1))));
    assert!(fits(layout(SectionKind::Bss, ".bss", place("b", u64::MAX, 0, 400))));
    let mut s = layout(SectionKind::Code, ".text", place("f", 0, 0, 4));
    s.relocations = vec![reloc("g", i64::MAX as u64, 1)];
    assert!(!fits(s));
    let mut s = layout(SectionKind::Data, ".data", place("d", 0, 0, 4));
    s.relocations = vec![reloc("g", i64::MAX as u64, 1)];
    assert!(fits(s));
}

#[test]
fn placeholders_are_looked_up_among_all_symbols() {
    let code = |name: &str| {
        let mut s = layout(SectionKind::Code, ".text", place("f", 0, 0, 4));
        s.relocations = vec![reloc(name, 0, 0)];
        s
    };
    let far = || layout(SectionKind::Bss, ".bss", place("b", i64::MAX as u64, 0, 2));
    assert!(can_compare(&vec![code("g"), far()], &vec![]));
    assert!(!can_compare(&vec![code(""), far()], &vec![]));
    assert!(!can_compare(&vec![], &vec![code(""), far()]));
}

#[test]
fn data_that_is_compared_must_fit_its_bytes() {
    let over = |name: &str| layout(SectionKind::Data, ".data", place(name, 0, 1, 4));
    let data = |name: &str| layout(SectionKind::Data, ".data", place(name, 0, 0, 4));
    assert!(can_compare(&vec![over("d")], &vec![]));
    assert!(can_compare(&vec![over("d")], &vec![data("e")]));
    assert!(!can_compare(&vec![over("d")], &vec![data("d")]));
    assert!(!can_compare(&vec![data("d")], &vec![over("d")]));
    assert!(!can_compare(&vec![over("d$1")], &vec![data("d$2")]));
    assert!(can_compare(&vec![over("d$1")], &vec![data("e$1")]));
    let mut short = over("d");
    short.size = 5;
    assert!(!can_compare(&vec![short], &vec![data("e")]));
}

#[test]
fn numbered_symbols_need_bytes_on_both_sides() {
    let data = |name: &str| layout(SectionKind::Data, ".x", place(name, 0, 0, 4));
    let bss = |name: &str, address: u64| {
        let mut s = layout(SectionKind::Bss, ".x", place(name, address, 0, 4));
        s.data_len = 0;
        s
    };
    assert!(!can_compare(&vec![data("@1")], &vec![bss("@2", 0)]));
    assert!(can_compare(&vec![data("@1")], &vec![bss("@2", 8)]));
    assert!(can_compare(&vec![data("d")], &vec![bss("@2", 0)]));
    assert!(can_compare(&vec![data("@1")], &vec![bss("b", 0)]));
    assert!(can_compare(&vec![bss("@2", 0)], &vec![data("@1")]));
}

#[test]
fn the_first_symbol_of_a_name_is_found() {
    let sections = vec![
        layout(SectionKind::Code, "a", place("x", 0, 0, 0)),
        layout(SectionKind::Code, "b", place("f", 0, 0, 0)),
        layout(SectionKind::Code, "c", place("f", 0, 0, 0)),
    ];
    assert_eq!(find_symbol(&sections, "f"), Some((1, 0)));
    assert_eq!(find_symbol(&sections, "y"), None);
}

fn row(kind: RowKind, text: Option<&str>) -> InsRow {
    InsRow { kind, text: text.map(|t| t.to_string()) }
}

#[test]
fn rows_are_marked() {
    let line = |kind: RowKind, l: Option<&str>, r: Option<&str>| {
        let mut out = String::new();
        render_row(&mut out, &row(kind, l), &row(kind, r));
        out
    };
    assert_eq!(line(RowKind::Equal, Some("a"), Some("b")), "  a\n");
    assert_eq!(line(RowKind::Delete, Some("a"), None), "- a\n");
    assert_eq!(line(RowKind::Insert, None, Some("b")), "+ b\n");
    let both = format!("~ {:<30} -> {}\n", "a", "b");
    assert_eq!(line(RowKind::Replace, Some("a"), Some("b")), both);
    assert_eq!(line(RowKind::OpMismatch, Some("a"), Some("b")), both);
    assert_eq!(line(RowKind::ArgMismatch, Some("a"), Some("b")), both);
    assert_eq!(line(RowKind::Equal, None, None), "  \n");
}

#[test]
fn a_function_without_a_pair_shows_the_base() {
    let sections = || vec![layout(SectionKind::Code, ".text", place("f", 0, 0, 0))];
    let side = |pair: Option<(usize, usize)>, texts: &[&str]| Side {
        heads: vec![vec![Head { percent: None, pair }]],
        rows: vec![vec![texts.iter().map(|t| row(RowKind::Replace, Some(*t))).collect()]],
    };
    let unpaired = format!("; objdiff match 0.00%  f\n~ {:<30} -> {}\n", "a", "a");
    let r = render_diff(&sections(), &sections(), &side(None, &["a"]), &side(None, &["b"]), "f");
    match r {
        Some(r) => {
            assert_eq!(r.match_percent, 0);
            assert_eq!(r.listing, unpaired);
        }
        None => panic!("both have the function"),
    }
    let uneven =
        render_diff(&sections(), &sections(), &side(Some((0, 0)), &["a"]), &side(None, &[]), "f");
    assert_eq!(uneven.map(|r| r.listing), Some(unpaired));
    let mut left = side(Some((0, 0)), &["a"]);
    left.heads[0][0].percent = Some(Percent { bits: 5, text: "12.50".to_string() });
    let paired = render_diff(&sections(), &sections(), &left, &side(None, &["b"]), "f");
    assert_eq!(
        paired.map(|r| (r.match_percent, r.listing)),
        Some((5, format!("; objdiff match 12.50%  f\n~ {:<30} -> {}\n", "a", "b")))
    );
}
