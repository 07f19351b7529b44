use std::collections::BTreeMap;
use std::rc::Rc;
use vostok_pdb_parser::disasm::{Flow, Insn};
use vostok_pdb_parser::listing::{render_block, render_function};
use vostok_pdb_parser::pe::TextSection;
use vostok_pdb_parser::symbols::SymbolMaps;

fn text() -> TextSection {
    TextSection {
        image_base: 0x400000,
        rva: 0x1000,
        data: vec![0xcc, 0x55, 0x8b, 0xec, 0x74, 0x01, 0x5d, 0xc3, 0xcc],
    }
}

fn symbols() -> Rc<SymbolMaps> {
    Rc::new(SymbolMaps { functions: BTreeMap::new(), data: BTreeMap::new() })
}

const TARGET: &str = "void f():\n\
'10'\t; 0x3 bytes\n0x0:    push ebp\t; 0x1 bytes\n0x1:    mov ebp,esp\t; 0x2 bytes\n\n\
'12'\t; 0x4 bytes\n0x3:    je short .1\t; 0x2 bytes\n0x5:    pop ebp\t; 0x1 bytes\n.1:\n\
0x6:    ret\t; 0x1 bytes\n\n";

const BASE: &str = "void f():\n\
{\t; 0x3 bytes\n0x0:    push ebp\t; 0x1 bytes\n0x1:    mov ebp,esp\t; 0x2 bytes\n\n\
'12'\t; 0x4 bytes\n0x3:    je short .1\t; 0x2 bytes\n0x5:    pop ebp\t; 0x1 bytes\n.1:\n\
0x6:    ret\t; 0x1 bytes\n\n";

#[test]
fn without_sources_statements_show_their_line() {
    let r = render_function(
        &text(),
        &symbols(),
        "void f()",
        0x1001,
        7,
        &vec![(0x1001, 10), (0x1004, 12)],
        None,
    );
    assert_eq!(r, TARGET);
}

#[test]
fn with_sources_only_the_titles_differ() {
    let mut source: Vec<String> = vec![String::new(); 9];
    source.push("  {  ".to_string());
    source.push("x".to_string());
    source.push(" \t ".to_string());
    let r = render_function(
        &text(),
        &symbols(),
        "void f()",
        0x1001,
        7,
        &vec![(0x1001, 10), (0x1004, 12)],
        Some(&source),
    );
    assert_eq!(r, BASE);
}

#[test]
fn lines_that_the_source_lacks_show_their_number() {
    let source: Vec<String> = vec!["one".to_string()];
    let r = |stmts: Vec<(u32, u32)>| {
        render_function(&text(), &symbols(), "f", 0x1007, 1, &stmts, Some(&source))
    };
    assert_eq!(r(vec![(0x1007, 1)]), "f:\none\t; 0x1 bytes\n0x0:    ret\t; 0x1 bytes\n\n");
    assert_eq!(r(vec![(0x1007, 2)]), "f:\n'2'\t; 0x1 bytes\n0x0:    ret\t; 0x1 bytes\n\n");
    assert_eq!(r(vec![]), "f:\n'0'\t; 0x1 bytes\n0x0:    ret\t; 0x1 bytes\n\n");
}

#[test]
fn an_instruction_goes_with_the_statement_it_starts_in() {
    // A statement that starts inside an instruction has the instructions behind it.
    let r = render_function(
        &text(),
        &symbols(),
        "f",
        0x1001,
        3,
        &vec![(0x1001, 1), (0x1003, 2)],
        None,
    );
    assert_eq!(
        r,
        "f:\n'1'\t; 0x2 bytes\n0x0:    push ebp\t; 0x1 bytes\n0x1:    mov ebp,esp\t; 0x2 bytes\n\n\
         '2'\t; 0x1 bytes\n\n"
    );
}

#[test]
fn blocks_are_made_of_what_was_decoded() {
    let insns = vec![Insn { ip: 0x10, len: 0x1f, flow: Flow::Next, target: 0 }];
    let r = render_block(
        "sig",
        &insns,
        &vec!["text".to_string()],
        &vec![(0, 0)],
        0x10,
        0x1f,
        &vec![(0, 3)],
        None,
    );
    assert_eq!(r, "sig:\n'3'\t; 0x1f bytes\n.1:\n0x0:    text\t; 0x1f bytes\n\n");
}

#[test]
fn offsets_are_hexadecimal() {
    let code = TextSection { image_base: 0x400000, rva: 0x1000, data: vec![0x90; 0x1c] };
    let r = render_function(&code, &symbols(), "f", 0x1000, 0x1c, &vec![(0x1000, 1)], None);
    let lines: Vec<&str> = r.lines().collect();
    assert_eq!(lines[2], "0x0:    nop\t; 0x1 bytes");
    assert_eq!(lines[2 + 0x1b], "0x1b:    nop\t; 0x1 bytes");
}
