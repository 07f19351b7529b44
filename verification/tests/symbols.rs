use vostok_pdb_parser::symbols::{build_symbol_maps, PublicRecord, SymbolRecord};

fn procedure(rva: Option<u32>, name: &[u8]) -> SymbolRecord {
    SymbolRecord::Procedure { rva, name: name.to_vec() }
}

fn thunk(rva: Option<u32>, name: &[u8]) -> SymbolRecord {
    SymbolRecord::Thunk { rva, name: name.to_vec() }
}

fn data(rva: Option<u32>, name: &[u8]) -> SymbolRecord {
    SymbolRecord::Data { rva, name: name.to_vec() }
}

fn public(rva: Option<u32>, function: bool, name: &[u8]) -> PublicRecord {
    PublicRecord { rva, function, name: name.to_vec() }
}

#[test]
fn module_symbols_win() {
    let modules = vec![
        vec![procedure(Some(0x10), b"vostok::f"), data(Some(0x10), b"d"), SymbolRecord::Other],
        vec![thunk(Some(0x10), b"late"), thunk(Some(0x20), b"t")],
    ];
    let publics = vec![
        public(Some(0x10), true, b"?f@vostok@@YAXXZ"),
        public(Some(0x30), true, b"_memcpy"),
        public(Some(0x30), true, b"_memmove"),
        public(Some(0x40), false, b"_environ"),
    ];
    let maps = build_symbol_maps(&modules, &publics);
    let functions: Vec<(usize, &str)> =
        maps.functions.iter().map(|(k, v)| (*k, v.as_str())).collect();
    let data: Vec<(usize, &str)> = maps.data.iter().map(|(k, v)| (*k, v.as_str())).collect();
    assert_eq!(functions, vec![(0x10, "vostok::f"), (0x20, "t"), (0x30, "_memcpy")]);
    assert_eq!(data, vec![(0x10, "d"), (0x40, "_environ")]);
}

#[test]
fn symbols_that_map_nowhere_name_nothing() {
    let maps = build_symbol_maps(
        &vec![vec![procedure(None, b"f"), data(None, b"d")]],
        &vec![public(None, true, b"p")],
    );
    assert!(maps.functions.is_empty());
    assert!(maps.data.is_empty());
}

#[test]
fn names_are_decoded_with_replacement() {
    let maps = build_symbol_maps(
        &vec![vec![procedure(Some(1), b"a\xffb"), procedure(Some(2), "é".as_bytes())]],
        &vec![],
    );
    assert_eq!(maps.functions[&1], "a\u{fffd}b");
    assert_eq!(maps.functions[&2], "é");
}
