use vostok_pdb_parser::checksums::{
    all_names, collect_checksums, compare_file, engine_prefix, engine_source, print_diff, Checksum,
    Checksums, Entry, FileRecord, ModuleFiles, Status,
};

const PREFIX: &str = "c:\\survarium\\sources\\";

fn file(name: &str, checksum: Checksum) -> FileRecord {
    FileRecord { name: name.as_bytes().to_vec(), checksum }
}

fn module(files: Vec<FileRecord>) -> ModuleFiles {
    ModuleFiles { files, broken: false }
}

fn side(entries: &[(&str, &[u8])]) -> Checksums {
    let mut list: Vec<Entry> = Vec::new();
    for (name, checksum) in entries {
        list.push(Entry { name: name.to_string(), checksum: checksum.to_vec() });
    }
    Checksums { entries: list }
}

fn found(c: &Checksums) -> Vec<(&str, &[u8])> {
    c.entries.iter().map(|e| (e.name.as_str(), e.checksum.as_slice())).collect()
}

#[test]
fn prefixes_are_normalised() {
    assert_eq!(engine_prefix("C:/Survarium/sources"), PREFIX);
    assert_eq!(engine_prefix("c:\\survarium\\sources\\"), PREFIX);
    assert_eq!(engine_prefix(""), "\\");
    assert_eq!(engine_prefix("ÄÖ/"), "äö\\");
}

#[test]
fn source_files_of_the_engine_are_told() {
    let name = |s: &str| engine_source(s.as_bytes(), PREFIX);
    assert_eq!(name("C:\\Survarium\\Sources\\A\\B.CPP"), Some("a\\b.cpp".to_string()));
    assert_eq!(name("c:\\survarium\\sources\\a.h"), None);
    assert_eq!(name("d:\\other\\a.cpp"), None);
    assert_eq!(name("c:/survarium/sources/a.cpp"), None);
    assert_eq!(
        engine_source(b"c:\\survarium\\sources\\\xff.cpp", PREFIX),
        Some("\u{fffd}.cpp".to_string())
    );
}

#[test]
fn a_prefix_that_names_cannot_have_tells_none() {
    assert_eq!(engine_source(b"C:\\S\\a.cpp", "C:\\S\\"), None);
    assert_eq!(engine_source(b"a.cpp", "\\"), None);
}

#[test]
fn a_module_adds_its_first_new_file() {
    let modules = vec![
        module(vec![
            file("c:\\survarium\\sources\\pch.h", Checksum::Md5(vec![9])),
            file("c:\\survarium\\sources\\a.cpp", Checksum::Md5(vec![1, 2])),
            file("c:\\survarium\\sources\\b.cpp", Checksum::Sha1(vec![3])),
        ]),
        module(vec![
            file("c:\\survarium\\sources\\A.cpp", Checksum::Md5(vec![7])),
            file("c:\\survarium\\sources\\c.cpp", Checksum::Sha256(vec![4])),
        ]),
        module(vec![file("c:\\survarium\\sources\\d.cpp", Checksum::Missing)]),
        module(vec![]),
    ];
    match collect_checksums(&modules, PREFIX) {
        Ok(c) => {
            let expected: Vec<(&str, &[u8])> =
                vec![("a.cpp", &[1, 2]), ("c.cpp", &[4]), ("d.cpp", &[])];
            assert_eq!(found(&c), expected);
        }
        Err(_) => panic!("no listing is broken"),
    }
}

#[test]
fn a_broken_listing_fails_unless_a_file_was_taken() {
    let taken = ModuleFiles {
        files: vec![file("c:\\survarium\\sources\\a.cpp", Checksum::Md5(vec![1]))],
        broken: true,
    };
    assert!(matches!(collect_checksums(&vec![taken], PREFIX), Ok(_)));
    let modules = vec![
        module(vec![file("c:\\survarium\\sources\\a.cpp", Checksum::Md5(vec![1]))]),
        ModuleFiles {
            files: vec![file("c:\\survarium\\sources\\a.cpp", Checksum::Md5(vec![1]))],
            broken: true,
        },
        ModuleFiles { files: vec![], broken: true },
    ];
    assert!(matches!(collect_checksums(&modules, PREFIX), Err(1)));
}

#[test]
fn sides_are_compared() {
    let base = side(&[("b\\x.cpp", &[1]), ("a.cpp", &[2]), ("only_base.cpp", &[])]);
    let target = side(&[("only_target.cpp", &[5]), ("a.cpp", &[3]), ("b\\x.cpp", &[1])]);
    assert_eq!(
        print_diff(&base, &target),
        "DIFF    a.cpp\nMATCH   b/x.cpp\nBASE    only_base.cpp\nTARGET  only_target.cpp\n\n\
         matched=1  diff=1  base-only=1  target-only=1\n"
    );
    assert_eq!(
        print_diff(&target, &base),
        "DIFF    a.cpp\nMATCH   b/x.cpp\nTARGET  only_base.cpp\nBASE    only_target.cpp\n\n\
         matched=1  diff=1  base-only=1  target-only=1\n"
    );
}

#[test]
fn the_same_side_matches() {
    let base = side(&[("b.cpp", &[1]), ("a.cpp", &[])]);
    assert_eq!(
        print_diff(&base, &base),
        "MATCH   a.cpp\nMATCH   b.cpp\n\nmatched=2  diff=0  base-only=0  target-only=0\n"
    );
    assert_eq!(
        print_diff(&Checksums::new(), &Checksums::new()),
        "\nmatched=0  diff=0  base-only=0  target-only=0\n"
    );
}

#[test]
fn names_come_once_and_in_order() {
    let base = side(&[("b", &[]), ("c", &[]), ("a\\b", &[])]);
    let target = side(&[("c", &[]), ("a", &[]), ("a.b", &[])]);
    assert_eq!(all_names(&base, &target), vec!["a", "a.b", "a\\b", "b", "c"]);
    assert!(matches!(compare_file(&base, &target, "c"), Status::Match));
    assert!(matches!(compare_file(&base, &target, "b"), Status::Base));
    assert!(matches!(compare_file(&base, &target, "a"), Status::Target));
}

#[test]
fn the_first_checksum_of_a_name_stays() {
    let twice = side(&[("a", &[1]), ("a", &[2])]);
    assert_eq!(twice.get("a"), Some(&vec![1]));
    assert_eq!(twice.get("b"), None);
}
