use std::collections::BTreeMap;
use std::path::PathBuf;
use std::rc::Rc;
use vostok_pdb_parser::pe::TextSection;
use vostok_pdb_parser::report::{write_stream, Report};
use vostok_pdb_parser::rich_context::{
    can_disassemble, dump_rich_context, engine_relative, plan_function, source_paths, Options,
    ProcRecord, SourceFile,
};
use vostok_pdb_parser::statements::LineRecord;
use vostok_pdb_parser::symbols::SymbolMaps;

fn text() -> TextSection {
    TextSection { image_base: 0x400000, rva: 0x1000, data: vec![0xc3; 16] }
}

fn symbols() -> Rc<SymbolMaps> {
    Rc::new(SymbolMaps { functions: BTreeMap::new(), data: BTreeMap::new() })
}

fn options() -> Options {
    Options {
        engine_path: "c:\\s\\".to_string(),
        source_root: None,
        target_mode: false,
        out_dir: None,
    }
}

fn procedure(rva: Option<u32>, len: u32, line: u32, file: &str) -> ProcRecord {
    ProcRecord {
        rva,
        len,
        name: b"recorded".to_vec(),
        signature: Some("void f()".to_string()),
        lines: vec![LineRecord { rva, line, file: Some(file.as_bytes().to_vec()) }],
    }
}

fn report_on(
    text: &TextSection,
    symbols: &Rc<SymbolMaps>,
    sources: &Vec<SourceFile>,
    procs: &Vec<ProcRecord>,
    opts: &Options,
) -> Report {
    match dump_rich_context(text, symbols, sources, procs, opts) {
        Ok(report) => report,
        Err(i) => panic!("the file of procedure {i} is there"),
    }
}

#[test]
fn procedures_outside_the_code_are_left_out() {
    assert!(can_disassemble(&text(), Some(0x1000), 16));
    assert!(!can_disassemble(&text(), Some(0x1000), 17));
    assert!(!can_disassemble(&text(), Some(0xfff), 1));
    assert!(!can_disassemble(&text(), Some(0x1010), 1));
    assert!(!can_disassemble(&text(), Some(u32::MAX), u32::MAX));
    assert!(!can_disassemble(&text(), Some(0x1000), 0));
    assert!(!can_disassemble(&text(), None, 1));
}

#[test]
fn recorded_names_are_made_relative() {
    assert_eq!(engine_relative("C:/S/A\\b.CPP", "c:\\s\\"), Some("a\\b.cpp".to_string()));
    assert_eq!(engine_relative("d:\\s\\a.cpp", "c:\\s\\"), None);
}

#[test]
fn a_plan_says_where_a_procedure_goes() {
    let mut opts = options();
    opts.source_root = Some(PathBuf::from("/src"));
    match plan_function(&text(), &procedure(Some(0x1002), 1, 7, "C:\\S\\A\\B.cpp"), &opts) {
        Some(plan) => {
            assert_eq!(plan.rva, 0x1002);
            assert_eq!(plan.statements, vec![(0x1002, 7)]);
            assert_eq!(plan.key, "a\\b.cpp");
            assert_eq!(plan.source, Some("a/b.cpp".to_string()));
        }
        None => panic!("the procedure is listed"),
    }
    match plan_function(&text(), &procedure(Some(0x1002), 1, 7, "D:\\Lib\\X.cpp"), &opts) {
        Some(plan) => {
            assert_eq!(plan.key, "D:\\Lib\\X.cpp");
            assert_eq!(plan.source, None);
        }
        None => panic!("the procedure is listed"),
    }
}

#[test]
fn a_tree_has_files_of_the_engine_alone() {
    let mut opts = options();
    opts.out_dir = Some(PathBuf::from("/out"));
    assert!(plan_function(&text(), &procedure(Some(0x1000), 1, 1, "d:\\x.cpp"), &opts).is_none());
    assert!(plan_function(&text(), &procedure(Some(0x1000), 1, 1, "c:\\s\\x.cpp"), &opts).is_some());
}

#[test]
fn procedures_without_statements_are_left_out() {
    let mut p = procedure(Some(0x1000), 1, 1, "c:\\s\\x.cpp");
    p.lines = vec![LineRecord { rva: None, line: 1, file: Some(b"c:\\s\\x.cpp".to_vec()) }];
    assert!(plan_function(&text(), &p, &options()).is_none());
    p.lines = vec![];
    assert!(plan_function(&text(), &p, &options()).is_none());
    assert!(plan_function(&text(), &procedure(Some(0x1000), 0, 1, "x"), &options()).is_none());
    assert!(plan_function(&text(), &procedure(None, 1, 1, "x"), &options()).is_none());
}

#[test]
fn the_report_has_every_procedure() {
    let mut unnamed = procedure(Some(0x1001), 1, 2, "c:\\s\\a.cpp");
    unnamed.signature = None;
    let procs = vec![
        procedure(Some(0x1003), 1, 2, "c:\\s\\b.cpp"),
        procedure(Some(0x1002), 1, 1, "c:\\s\\a.cpp"),
        unnamed,
        procedure(Some(0x2000), 1, 1, "c:\\s\\a.cpp"),
        procedure(Some(0x1003), 1, 3, "C:/S/b.cpp"),
        procedure(Some(0x1004), 1, 1, "Z:\\Lib.cpp"),
    ];
    let report = report_on(&text(), &symbols(), &vec![], &procs, &options());
    assert_eq!(
        write_stream(&report),
        "// ===== Z:\\Lib.cpp =====\n\n\
         void f():\n'1'\t; 0x1 bytes\n0x0:    ret\t; 0x1 bytes\n\n\
         // ===== a.cpp =====\n\n\
         recorded:\n'2'\t; 0x1 bytes\n0x0:    ret\t; 0x1 bytes\n\n\
         void f():\n'1'\t; 0x1 bytes\n0x0:    ret\t; 0x1 bytes\n\n\
         // ===== b.cpp =====\n\n\
         void f():\n'3'\t; 0x1 bytes\n0x0:    ret\t; 0x1 bytes\n\n"
    );
}

#[test]
fn sources_are_read_once_and_shown() {
    let mut opts = options();
    opts.source_root = Some(PathBuf::from("/src"));
    let procs = vec![
        procedure(Some(0x1000), 1, 2, "c:\\s\\d\\a.cpp"),
        procedure(Some(0x1001), 1, 1, "C:\\S\\D\\A.CPP"),
        procedure(Some(0x1002), 1, 1, "c:\\s\\b.cpp"),
        procedure(Some(0x1003), 0, 1, "c:\\s\\c.cpp"),
    ];
    assert_eq!(source_paths(&text(), &procs, &opts), vec!["d/a.cpp", "b.cpp"]);
    let sources = vec![
        SourceFile::new("d/a.cpp".to_string(), Some("first\r\n  second\r\n")),
        SourceFile::new("b.cpp".to_string(), None),
    ];
    let report = report_on(&text(), &symbols(), &sources, &procs, &opts);
    assert_eq!(
        write_stream(&report),
        "// ===== b.cpp =====\n\n\
         void f():\n'1'\t; 0x1 bytes\n0x0:    ret\t; 0x1 bytes\n\n\
         // ===== d\\a.cpp =====\n\n\
         void f():\nsecond\t; 0x1 bytes\n0x0:    ret\t; 0x1 bytes\n\n\
         void f():\nfirst\t; 0x1 bytes\n0x0:    ret\t; 0x1 bytes\n\n"
    );
}

#[test]
fn target_mode_reads_no_source() {
    let mut opts = options();
    opts.source_root = Some(PathBuf::from("/src"));
    opts.target_mode = true;
    let procs = vec![procedure(Some(0x1000), 1, 1, "c:\\s\\a.cpp")];
    assert!(source_paths(&text(), &procs, &opts).is_empty());
    let sources = vec![SourceFile::new("a.cpp".to_string(), Some("text"))];
    let with = report_on(&text(), &symbols(), &sources, &procs, &opts);
    let without = report_on(&text(), &symbols(), &vec![], &procs, &opts);
    assert_eq!(write_stream(&with), write_stream(&without));
    assert_eq!(
        write_stream(&with),
        "// ===== a.cpp =====\n\nvoid f():\n'1'\t; 0x1 bytes\n0x0:    ret\t; 0x1 bytes\n\n"
    );
}

#[test]
fn undecodable_names_are_replaced() {
    let mut p = procedure(Some(0x1000), 1, 1, "");
    p.lines[0].file = Some(b"C:\\S\\\xff.cpp".to_vec());
    p.name = b"\xfe".to_vec();
    p.signature = None;
    let report = report_on(&text(), &symbols(), &vec![], &vec![p], &options());
    assert_eq!(
        write_stream(&report),
        "// ===== \u{fffd}.cpp =====\n\n\u{fffd}:\n'1'\t; 0x1 bytes\n0x0:    ret\t; 0x1 bytes\n\n"
    );
}

#[test]
fn the_file_of_the_first_line_counts() {
    let mut p = procedure(Some(0x1000), 2, 1, "c:\\s\\first.cpp");
    p.lines.push(LineRecord {
        rva: Some(0x1001),
        line: 9,
        file: Some(b"c:\\s\\inlined.h".to_vec()),
    });
    p.lines.push(LineRecord { rva: Some(0x1001), line: 10, file: None });
    match plan_function(&text(), &p, &options()) {
        Some(plan) => {
            assert_eq!(plan.key, "first.cpp");
            assert_eq!(plan.statements, vec![(0x1000, 1), (0x1001, 9)]);
        }
        None => panic!("the procedure is listed"),
    }
}

#[test]
fn a_file_that_cannot_be_read_is_an_error() {
    let unread = |rva: u32| {
        let mut p = procedure(Some(rva), 1, 1, "");
        p.lines[0].file = None;
        p
    };
    let dump = |procs: Vec<ProcRecord>| {
        dump_rich_context(&text(), &symbols(), &vec![], &procs, &options())
    };
    let good = || procedure(Some(0x1000), 1, 1, "c:\\s\\a.cpp");
    assert!(matches!(dump(vec![good(), unread(0x1001), unread(0x1002)]), Err(1)));
    // Outside the code nothing of a procedure is read.
    assert!(matches!(dump(vec![good(), unread(0x9000)]), Ok(_)));
}

#[test]
fn a_prefix_with_a_capital_tells_no_file() {
    assert_eq!(engine_relative("C:\\S\\a.cpp", "C:\\s\\"), None);
    assert_eq!(engine_relative("\u{212a}\\a.cpp", "K\\"), None);
    assert_eq!(engine_relative("\u{212a}\\a.cpp", "k\\"), Some("a.cpp".to_string()));
    let mut opts = options();
    opts.engine_path = "C:\\s\\".to_string();
    opts.out_dir = Some(PathBuf::from("/out"));
    assert!(plan_function(&text(), &procedure(Some(0x1000), 1, 1, "C:\\s\\x.cpp"), &opts).is_none());
}

#[test]
fn reports_differ_in_titles_alone() {
    let procs = vec![
        procedure(Some(0x1000), 1, 1, "c:\\s\\b.cpp"),
        procedure(Some(0x1001), 1, 2, "c:\\s\\a.cpp"),
    ];
    let mut base = options();
    base.source_root = Some(PathBuf::from("/src"));
    let mut target = options();
    target.target_mode = true;
    let sources = vec![
        SourceFile::new("a.cpp".to_string(), Some("x\ny\n")),
        SourceFile::new("b.cpp".to_string(), Some("z")),
    ];
    let with = write_stream(&report_on(&text(), &symbols(), &sources, &procs, &base));
    let without = write_stream(&report_on(&text(), &symbols(), &sources, &procs, &target));
    assert_eq!(with.replace("y\t;", "'2'\t;").replace("z\t;", "'1'\t;"), without);
    assert_ne!(with, without);
}
